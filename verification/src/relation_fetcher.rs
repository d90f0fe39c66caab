//! Fetching a row with its relations: which rows to ask the database for
//! next. From a row, its parents are the rows of the tables it refers to
//! (through each of its table's foreign keys), its children the rows that
//! refer to it.

use vstd::prelude::*;

use petgraph::graph::Graph;
use petgraph::Directed;

use crate::db_metadata::PsqlTableMap;
use crate::dto::{
    ColumnModel, ForeignKeyModel, ForeignKeysByName, PsqlForeignKey, PsqlTable, PsqlTableColumn,
    PsqlTableIdentity, PsqlTableRow, RowModel, TableIdModel, TableModel,
};
use crate::graph::{
    edge_count, find_or_add_row, finds_or_adds, graph_edge_count, graph_rows, graph_targets, graph_weights, link_rows,
    links, new_graph, node_count, node_row, rows_distinct, same_row,
};

verus! {

/// Where to start fetching: the rows of a table whose column holds a value.
#[derive(Debug)]
pub struct FetchRowsAsRoseTreeInput {
    pub table_id: crate::dto::PsqlTableIdentity,
    pub column_name: String,
    pub column_value: String,
}

/// A query for related rows: the rows of `table` whose column `column_name`
/// holds what the row at hand holds in `id_column`.
#[derive(Debug)]
pub struct RowQuery {
    pub table: PsqlTable,
    pub column_name: String,
    pub id_column: PsqlTableColumn,
}

/// The view of a query: table, column to match, column of the row at hand.
pub type QueryModel = (TableModel, Seq<char>, ColumnModel);

/// The views of queries.
pub open spec fn query_views(q: Seq<RowQuery>) -> Seq<QueryModel> {
    q.map_values(|x: RowQuery| (x.table@, x.column_name@, x.id_column@))
}

/// Every foreign key leads to a known table.
pub open spec fn targets_known(
    fks: Seq<(Seq<char>, ForeignKeyModel)>,
    tables: Map<crate::dto::TableIdModel, TableModel>,
) -> bool {
    forall|k: int| 0 <= k < fks.len() ==> tables.contains_key(#[trigger] fks[k].1.foreign_table)
}

/// The parent queries of a row: for each foreign key of its table, in
/// order, the referred table's rows whose primary column holds the row's
/// value of the key's column.
pub open spec fn parent_queries(
    fks: Seq<(Seq<char>, ForeignKeyModel)>,
    tables: Map<crate::dto::TableIdModel, TableModel>,
) -> Seq<QueryModel> {
    fks.map_values(
        |e: (Seq<char>, ForeignKeyModel)|
            (tables[e.1.foreign_table], tables[e.1.foreign_table].primary_column.0, e.1.column),
    )
}

/// The child queries of a row of a table with primary column `primary`:
/// for each foreign key that refers to its table, in order, the referring
/// table's rows whose key column holds the row's primary value.
pub open spec fn child_queries(
    fks: Seq<(Seq<char>, ForeignKeyModel)>,
    tables: Map<crate::dto::TableIdModel, TableModel>,
    primary: ColumnModel,
) -> Seq<QueryModel> {
    fks.map_values(
        |e: (Seq<char>, ForeignKeyModel)|
            (tables[e.1.foreign_table], e.1.column.0, primary),
    )
}

/// Decides what to fetch for a row.
pub struct RelationFetcher;

impl RelationFetcher {
    /// The queries for the parents of `row`, one per foreign key of its
    /// table, in order.
    pub fn referencing_queries(row: &PsqlTableRow, tables: &PsqlTableMap) -> (queries: Vec<RowQuery>)
        requires
            targets_known(row.table.referencing_fk_by_constraint_name.entry_views(), tables@),
        ensures
            query_views(queries@) == parent_queries(
                row.table.referencing_fk_by_constraint_name.entry_views(),
                tables@,
            ),
    {
        let fks = row.table.referencing_fk_by_constraint_name.entries();
        let ghost fv = row.table.referencing_fk_by_constraint_name.entry_views();
        let mut queries: Vec<RowQuery> = Vec::new();
        let mut i: usize = 0;
        while i < fks.len()
            invariant
                i <= fks@.len(),
                fks@.map_values(|e: (String, PsqlForeignKey)| (e.0@, e.1@)) == fv,
                targets_known(fv, tables@),
                query_views(queries@) == parent_queries(fv, tables@).take(i as int),
            decreases fks@.len() - i,
        {
            let fk = &fks[i].1;
            assert(fv[i as int].1 == fk@);
            let id = crate::dto::PsqlTableIdentity::new(
                fk.foreign_table_schema.as_str(),
                fk.foreign_table_name.as_str(),
            );
            assert(tables@.contains_key(fv[i as int].1.foreign_table));
            assert(id@ == fk@.foreign_table);
            let table = match tables.get(&id) {
                Some(t) => t,
                None => {
                    assert(false);
                    return queries;
                },
            };
            let ghost before = query_views(queries@);
            queries.push(
                RowQuery {
                    table: table.clone(),
                    column_name: table.primary_column.name.clone(),
                    id_column: fk.column.clone(),
                },
            );
            assert(query_views(queries@) =~= before.push(parent_queries(fv, tables@)[i as int]));
            assert(parent_queries(fv, tables@).take(i + 1) =~= parent_queries(fv, tables@).take(
                i as int,
            ).push(parent_queries(fv, tables@)[i as int]));
            i = i + 1;
        }
        assert(parent_queries(fv, tables@).take(i as int) =~= parent_queries(fv, tables@));
        queries
    }

    /// The queries for the children of `row`, one per foreign key that
    /// refers to its table, in order.
    pub fn referenced_queries(row: &PsqlTableRow, tables: &PsqlTableMap) -> (queries: Vec<RowQuery>)
        requires
            targets_known(row.table.referenced_fk_by_constraint_name.entry_views(), tables@),
        ensures
            query_views(queries@) == child_queries(
                row.table.referenced_fk_by_constraint_name.entry_views(),
                tables@,
                row.table.primary_column@,
            ),
    {
        let fks = row.table.referenced_fk_by_constraint_name.entries();
        let ghost fv = row.table.referenced_fk_by_constraint_name.entry_views();
        let ghost all = child_queries(fv, tables@, row.table.primary_column@);
        let mut queries: Vec<RowQuery> = Vec::new();
        let mut i: usize = 0;
        while i < fks.len()
            invariant
                i <= fks@.len(),
                fks@.map_values(|e: (String, PsqlForeignKey)| (e.0@, e.1@)) == fv,
                targets_known(fv, tables@),
                all == child_queries(fv, tables@, row.table.primary_column@),
                query_views(queries@) == all.take(i as int),
            decreases fks@.len() - i,
        {
            let fk = &fks[i].1;
            assert(fv[i as int].1 == fk@);
            let id = crate::dto::PsqlTableIdentity::new(
                fk.foreign_table_schema.as_str(),
                fk.foreign_table_name.as_str(),
            );
            assert(tables@.contains_key(fv[i as int].1.foreign_table));
            assert(id@ == fk@.foreign_table);
            let table = match tables.get(&id) {
                Some(t) => t,
                None => {
                    assert(false);
                    return queries;
                },
            };
            let ghost before = query_views(queries@);
            queries.push(
                RowQuery {
                    table: table.clone(),
                    column_name: fk.column.name.clone(),
                    id_column: row.table.primary_column.clone(),
                },
            );
            assert(query_views(queries@) =~= before.push(all[i as int]));
            assert(all.take(i + 1) =~= all.take(i as int).push(all[i as int]));
            i = i + 1;
        }
        assert(all.take(i as int) =~= all);
        queries
    }
}

// ---------------------------------------------------------------------
// Walking the relations of a row
// ---------------------------------------------------------------------

/// Which foreign keys a visit follows: those of the row's table (to the rows
/// it refers to), or those pointing at the row's table (to the rows that
/// refer to it).
#[derive(Debug, Clone, Copy, PartialEq, Eq, Structural)]
pub enum Direction {
    Referencing,
    Referenced,
}

/// A table has a foreign key of `direction` whose other table is `target`.
pub open spec fn follows_to(table: TableModel, direction: Direction, target: TableIdModel) -> bool {
    match direction {
        Direction::Referencing => exists|name: Seq<char>|
            table.referencing_fk_by_constraint_name.contains_key(name)
                && (#[trigger] table.referencing_fk_by_constraint_name[name]).foreign_table == target,
        Direction::Referenced => exists|name: Seq<char>|
            table.referenced_fk_by_constraint_name.contains_key(name)
                && (#[trigger] table.referenced_fk_by_constraint_name[name]).foreign_table == target,
    }
}

/// `query` is one of the queries that follow the foreign keys of `row` in
/// `direction`: the rows of the referred table by its primary column (the
/// value taken from the key's column of `row`), or the rows of the referring
/// table by the key's column (the value taken from the primary column of
/// `row`).
pub open spec fn planned(
    row: RowModel,
    direction: Direction,
    query: QueryModel,
    tables: Map<TableIdModel, TableModel>,
) -> bool {
    match direction {
        Direction::Referencing => exists|name: Seq<char>|
            row.table.referencing_fk_by_constraint_name.contains_key(name) && {
                let fk = #[trigger] row.table.referencing_fk_by_constraint_name[name];
                &&& tables.contains_key(fk.foreign_table)
                &&& query == (
                    tables[fk.foreign_table],
                    tables[fk.foreign_table].primary_column.0,
                    fk.column,
                )
            },
        Direction::Referenced => exists|name: Seq<char>|
            row.table.referenced_fk_by_constraint_name.contains_key(name) && {
                let fk = #[trigger] row.table.referenced_fk_by_constraint_name[name];
                &&& tables.contains_key(fk.foreign_table)
                &&& query == (tables[fk.foreign_table], fk.column.0, row.table.primary_column)
            },
    }
}

/// Every edge of the graph runs from a row to a row it refers to: the first
/// row's table has a foreign key to the second's, or the second's table is
/// known to be referred to by the first's.
pub open spec fn edges_sound(g: Graph<PsqlTableRow, i32, Directed, u32>) -> bool {
    forall|a: int, k: int|
        0 <= a < graph_rows(g).len() && 0 <= k < graph_targets(g, a).len() ==> {
            let t = #[trigger] graph_targets(g, a)[k];
            &&& t < graph_rows(g).len()
            &&& follows_to(graph_rows(g)[a].table, Direction::Referencing, graph_rows(g)[t as int].table.id)
                || follows_to(graph_rows(g)[t as int].table, Direction::Referenced, graph_rows(g)[a].table.id)
        }
}

/// Each edge out of node `a` has weight `-1`.
pub open spec fn weighted_minus_one(g: Graph<PsqlTableRow, i32, Directed, u32>, a: int) -> bool {
    &&& graph_weights(g, a).len() == graph_targets(g, a).len()
    &&& forall|m: int| 0 <= m < graph_weights(g, a).len() ==> #[trigger] graph_weights(g, a)[m] == -1
}

/// Work left in a walk.
pub enum WalkTask<R> {
    /// Plan the queries that follow the foreign keys of node `node`'s row.
    Visit { node: usize, direction: Direction },
    /// Fetch the rows of `query` for node `node`.
    Fetch { node: usize, direction: Direction, query: RowQuery },
    /// Add a fetched row (with what it was read from) and link it with node `node`.
    Add { node: usize, direction: Direction, row: PsqlTableRow, raw: R },
}

/// The view of a task: its node, direction, and the view of its query or row.
pub enum TaskModel {
    Visit { node: usize, direction: Direction },
    Fetch { node: usize, direction: Direction, query: QueryModel },
    Add { node: usize, direction: Direction, row: RowModel },
}

/// The view of a task.
pub open spec fn task_view<R>(t: WalkTask<R>) -> TaskModel {
    match t {
        WalkTask::Visit { node, direction } => TaskModel::Visit { node, direction },
        WalkTask::Fetch { node, direction, query } => TaskModel::Fetch {
            node,
            direction,
            query: (query.table@, query.column_name@, query.id_column@),
        },
        WalkTask::Add { node, direction, row, .. } => TaskModel::Add { node, direction, row: row@ },
    }
}

/// How much work a task stands for before the next fetch.
pub open spec fn task_weight<R>(t: WalkTask<R>) -> nat {
    match t {
        WalkTask::Visit { .. } => 1,
        WalkTask::Fetch { .. } => 0,
        WalkTask::Add { .. } => 3,
    }
}

pub open spec fn tasks_weight<R>(s: Seq<WalkTask<R>>) -> nat
    decreases s.len(),
{
    if s.len() == 0 {
        0
    } else {
        tasks_weight(s.drop_last()) + task_weight(s.last())
    }
}

/// What a walk asks of its caller next.
pub enum WalkStep {
    /// Fetch the rows of `query`, the value read from node `node`'s row (see
    /// `RelationWalk::raw`), and hand them to `RelationWalk::answer`.
    Fetch { node: usize, query: RowQuery },
    /// The walk is over.
    Done,
    /// The graph has no room for another row or relation.
    Full,
    /// A foreign key points at a table that the tables do not hold.
    UnknownTable,
}

/// A fetch that was answered: the node and direction it was planned for, its
/// query, and the rows it gave.
pub type Answer = (usize, Direction, QueryModel, Seq<RowModel>);

/// Every foreign key of `table` in `direction` points at a table of `tables`.
pub open spec fn keys_known(
    table: TableModel,
    direction: Direction,
    tables: Map<TableIdModel, TableModel>,
) -> bool {
    match direction {
        Direction::Referencing => forall|name: Seq<char>|
            #[trigger] table.referencing_fk_by_constraint_name.contains_key(name) ==> tables.contains_key(
                table.referencing_fk_by_constraint_name[name].foreign_table,
            ),
        Direction::Referenced => forall|name: Seq<char>|
            #[trigger] table.referenced_fk_by_constraint_name.contains_key(name) ==> tables.contains_key(
                table.referenced_fk_by_constraint_name[name].foreign_table,
            ),
    }
}

/// Node `node` and node `other` are linked as `direction` says: by an edge
/// from the referring row to the referred one.
pub open spec fn linked(
    g: Graph<PsqlTableRow, i32, Directed, u32>,
    node: usize,
    direction: Direction,
    other: int,
) -> bool {
    match direction {
        Direction::Referencing => graph_targets(g, node as int).contains(other as usize),
        Direction::Referenced => graph_targets(g, other).contains(node),
    }
}

/// Query `query` was answered for node `node` in `direction`.
pub open spec fn answered(answers: Seq<Answer>, node: usize, direction: Direction, query: QueryModel) -> bool {
    exists|j: int|
        0 <= j < answers.len() && (#[trigger] answers[j]).0 == node && answers[j].1 == direction
            && answers[j].2 == query
}

/// `row`, fetched for node `node` in `direction`, is a node of the graph,
/// linked with `node`, and its visits are in `visits`: towards the rows it
/// refers to, and, when it was fetched as a row that refers to `node`,
/// towards the rows that refer to it.
pub open spec fn placed(
    rows: Seq<RowModel>,
    g: Graph<PsqlTableRow, i32, Directed, u32>,
    visits: Set<(usize, Direction)>,
    node: usize,
    direction: Direction,
    row: RowModel,
) -> bool {
    exists|i: int|
        0 <= i < rows.len() && #[trigger] same_row(rows[i], row) && linked(g, node, direction, i)
            && visits.contains((i as usize, Direction::Referencing)) && (direction
            == Direction::Referenced ==> visits.contains((i as usize, Direction::Referenced)))
}

/// A walk that is over: both directions of the first row were visited, every
/// query planned for a visit was answered, and every row an answer gave is in
/// the graph, linked with the row it was fetched for, and visited in turn.
pub open spec fn walk_closed(
    rows: Seq<RowModel>,
    g: Graph<PsqlTableRow, i32, Directed, u32>,
    answers: Seq<Answer>,
    visits: Set<(usize, Direction)>,
    tables: Map<TableIdModel, TableModel>,
) -> bool {
    &&& visits.contains((0usize, Direction::Referencing))
    &&& visits.contains((0usize, Direction::Referenced))
    &&& forall|n: usize, d: Direction, q: QueryModel|
        #![trigger visits.contains((n, d)), planned(rows[n as int], d, q, tables)]
        visits.contains((n, d)) && planned(rows[n as int], d, q, tables) ==> answered(answers, n, d, q)
    &&& forall|j: int, k: int|
        0 <= j < answers.len() && 0 <= k < answers[j].3.len() ==> placed(
            rows,
            g,
            visits,
            answers[j].0,
            answers[j].1,
            #[trigger] answers[j].3[k],
        )
}

/// A visit of node `node` in `direction` is pending.
pub open spec fn visit_pending(pending: Seq<TaskModel>, node: usize, direction: Direction) -> bool {
    exists|t: int| 0 <= t < pending.len() && #[trigger] pending[t] == (TaskModel::Visit { node, direction })
}

/// A fetch of `query` for node `node` in `direction` is pending.
pub open spec fn fetch_pending(pending: Seq<TaskModel>, node: usize, direction: Direction, query: QueryModel) -> bool {
    exists|t: int|
        0 <= t < pending.len() && #[trigger] pending[t] == (TaskModel::Fetch { node, direction, query })
}

/// Adding `row` for node `node` in `direction` is pending.
pub open spec fn add_pending(pending: Seq<TaskModel>, node: usize, direction: Direction, row: RowModel) -> bool {
    exists|t: int| 0 <= t < pending.len() && #[trigger] pending[t] == (TaskModel::Add { node, direction, row })
}

/// The visits done or pending.
pub open spec fn covered(visits: Set<(usize, Direction)>, pending: Seq<TaskModel>) -> Set<(usize, Direction)> {
    visits.union(Set::new(|p: (usize, Direction)| visit_pending(pending, p.0, p.1)))
}

/// A walk on its way to being closed: each obligation of `walk_closed` is met
/// or stands in a pending task or the awaited fetch.
pub open spec fn walk_progress(
    rows: Seq<RowModel>,
    g: Graph<PsqlTableRow, i32, Directed, u32>,
    pending: Seq<TaskModel>,
    awaiting: Option<(usize, Direction, QueryModel)>,
    answers: Seq<Answer>,
    visits: Set<(usize, Direction)>,
    tables: Map<TableIdModel, TableModel>,
) -> bool {
    &&& covered(visits, pending).contains((0usize, Direction::Referencing))
    &&& covered(visits, pending).contains((0usize, Direction::Referenced))
    &&& forall|p: (usize, Direction)| #[trigger] visits.contains(p) ==> p.0 < rows.len()
    &&& forall|n: usize, d: Direction, q: QueryModel|
        #![trigger visits.contains((n, d)), planned(rows[n as int], d, q, tables)]
        visits.contains((n, d)) && planned(rows[n as int], d, q, tables) ==> answered(answers, n, d, q)
            || awaiting == Some((n, d, q)) || fetch_pending(pending, n, d, q)
    &&& forall|j: int, k: int|
        0 <= j < answers.len() && 0 <= k < answers[j].3.len() ==> add_pending(
            pending,
            answers[j].0,
            answers[j].1,
            #[trigger] answers[j].3[k],
        ) || placed(rows, g, covered(visits, pending), answers[j].0, answers[j].1, answers[j].3[k])
}

/// The walk from a row through its relations, building the graph of the rows
/// met: first the rows it refers to, recursively; then the rows that refer to
/// it, each followed by the rows it refers to and the rows that refer to it,
/// recursively. Rows are met depth first, in the order of the foreign keys
/// and of the fetched rows; a row met again keeps its node. `R` is what each
/// row was read from.
pub struct RelationWalk<R> {
    graph: Graph<PsqlTableRow, i32, Directed, u32>,
    raws: Vec<R>,
    tasks: Vec<WalkTask<R>>,
    awaiting: Option<(usize, Direction)>,
    asked: Ghost<QueryModel>,
    answers: Ghost<Seq<Answer>>,
    visits: Ghost<Set<(usize, Direction)>>,
}

/// A task refers to a node of the graph, and a planned fetch or a fetched row
/// follows a foreign key of that node's row.
pub open spec fn task_ok(t: TaskModel, rows: Seq<RowModel>, tables: Map<TableIdModel, TableModel>) -> bool {
    match t {
        TaskModel::Visit { node, .. } => node < rows.len(),
        TaskModel::Fetch { node, direction, query } => node < rows.len() && planned(
            rows[node as int],
            direction,
            query,
            tables,
        ),
        TaskModel::Add { node, direction, row } => node < rows.len() && follows_to(
            rows[node as int].table,
            direction,
            row.table.id,
        ),
    }
}

/// Tables sit under their own identities.
pub open spec fn ids_match(tables: Map<TableIdModel, TableModel>) -> bool {
    forall|k: TableIdModel| #[trigger] tables.contains_key(k) ==> tables[k].id == k
}

/// A planned query's table is the table its foreign key points at.
proof fn lemma_planned_follows(
    row: RowModel,
    direction: Direction,
    query: QueryModel,
    tables: Map<TableIdModel, TableModel>,
)
    requires
        planned(row, direction, query, tables),
        ids_match(tables),
    ensures
        follows_to(row.table, direction, query.0.id),
{
    match direction {
        Direction::Referencing => {
            let name = choose|name: Seq<char>|
                row.table.referencing_fk_by_constraint_name.contains_key(name) && {
                    let fk = #[trigger] row.table.referencing_fk_by_constraint_name[name];
                    &&& tables.contains_key(fk.foreign_table)
                    &&& query == (
                        tables[fk.foreign_table],
                        tables[fk.foreign_table].primary_column.0,
                        fk.column,
                    )
                };
            let fk = row.table.referencing_fk_by_constraint_name[name];
            assert(tables[fk.foreign_table].id == fk.foreign_table);
        },
        Direction::Referenced => {
            let name = choose|name: Seq<char>|
                row.table.referenced_fk_by_constraint_name.contains_key(name) && {
                    let fk = #[trigger] row.table.referenced_fk_by_constraint_name[name];
                    &&& tables.contains_key(fk.foreign_table)
                    &&& query == (tables[fk.foreign_table], fk.column.0, row.table.primary_column)
                };
            let fk = row.table.referenced_fk_by_constraint_name[name];
            assert(tables[fk.foreign_table].id == fk.foreign_table);
        },
    }
}


/// Whether every foreign key points at a table of `tables`; when one does
/// not, some name of the map leads outside `tables`.
fn targets_in(fks: &ForeignKeysByName, tables: &PsqlTableMap) -> (r: bool)
    ensures
        r == targets_known(fks.entry_views(), tables@),
        !r ==> exists|name: Seq<char>|
            #[trigger] fks@.contains_key(name) && !tables@.contains_key(fks@[name].foreign_table),
{
    let entries = fks.entries();
    let ghost ev = fks.entry_views();
    let mut i: usize = 0;
    while i < entries.len()
        invariant
            i <= entries@.len(),
            entries@.map_values(|e: (String, PsqlForeignKey)| (e.0@, e.1@)) == ev,
            ev == fks.entry_views(),
            forall|k: int| 0 <= k < i ==> tables@.contains_key(#[trigger] ev[k].1.foreign_table),
            forall|k: int| 0 <= k < ev.len() ==> fks@.contains_key((#[trigger] ev[k]).0) && fks@[ev[k].0] == ev[k].1,
        decreases entries@.len() - i,
    {
        let fk = &entries[i].1;
        assert(ev[i as int].1 == fk@);
        let id = PsqlTableIdentity::new(fk.foreign_table_schema.as_str(), fk.foreign_table_name.as_str());
        if tables.get(&id).is_none() {
            assert(id@ == fk@.foreign_table);
            assert(!tables@.contains_key(ev[i as int].1.foreign_table));
            assert(!targets_known(ev, tables@));
            assert(fks@.contains_key(ev[i as int].0) && fks@[ev[i as int].0] == ev[i as int].1);
            return false;
        }
        i = i + 1;
    }
    true
}

/// `after` holds the rows of `before` at their nodes, and each edge of
/// `before` between them.
pub open spec fn grows(
    before: Graph<PsqlTableRow, i32, Directed, u32>,
    after: Graph<PsqlTableRow, i32, Directed, u32>,
) -> bool {
    &&& graph_rows(before).len() <= graph_rows(after).len()
    &&& forall|i: int| 0 <= i < graph_rows(before).len() ==> #[trigger] graph_rows(after)[i] == graph_rows(before)[i]
    &&& forall|a: int, b: usize|
        0 <= a < graph_rows(before).len() && #[trigger] graph_targets(before, a).contains(b)
            ==> graph_targets(after, a).contains(b)
}

/// The pending tasks of `after` are those of `before` but its last one, and
/// then some.
pub open spec fn keeps_but_last(before: Seq<TaskModel>, after: Seq<TaskModel>) -> bool {
    &&& before.len() > 0
    &&& after.len() >= before.len() - 1
    &&& forall|t: int| 0 <= t < before.len() - 1 ==> #[trigger] after[t] == before[t]
}

/// One added task per fetched row, the last fetched row first.
pub open spec fn adds(node: usize, direction: Direction, rows: Seq<RowModel>) -> Seq<TaskModel> {
    Seq::new(rows.len(), |i: int| (TaskModel::Add { node, direction, row: rows[rows.len() - 1 - i] }))
}

impl<R> RelationWalk<R> {
    /// The rows met, by node.
    pub closed spec fn rows(&self) -> Seq<RowModel> {
        graph_rows(self.graph)
    }

    /// What each row was read from, by node.
    pub closed spec fn raws(&self) -> Seq<R> {
        self.raws@
    }

    /// The graph built so far.
    pub closed spec fn graph_view(&self) -> Graph<PsqlTableRow, i32, Directed, u32> {
        self.graph
    }

    /// The work left; the last task is taken first.
    pub closed spec fn pending(&self) -> Seq<TaskModel> {
        self.tasks@.map_values(|t: WalkTask<R>| task_view(t))
    }

    /// The node, direction and query of the fetch handed out and not answered yet.
    pub closed spec fn awaiting(&self) -> Option<(usize, Direction, QueryModel)> {
        match self.awaiting {
            Some((n, d)) => Some((n, d, self.asked@)),
            None => None,
        }
    }

    /// The fetches answered so far, in order.
    pub closed spec fn answers(&self) -> Seq<Answer> {
        self.answers@
    }

    /// The visits made so far: a node, and the direction whose foreign keys
    /// were followed from its row.
    pub closed spec fn visited(&self) -> Set<(usize, Direction)> {
        self.visits@
    }

    /// Whether no work is left.
    pub closed spec fn finished(&self) -> bool {
        self.tasks@.len() == 0
    }

    /// The walk is consistent for the tables `tables`: one raw per row, each
    /// row once, at most one edge from a node to another, every edge from a
    /// row to a row it refers to, every task and the awaited fetch about
    /// nodes of the graph, and every obligation of a closed walk met or
    /// pending.
    pub closed spec fn wf(&self, tables: Map<TableIdModel, TableModel>) -> bool {
        let rows = graph_rows(self.graph);
        &&& ids_match(tables)
        &&& self.raws@.len() == rows.len()
        &&& rows.len() <= u32::MAX
        &&& graph_edge_count(self.graph) <= u32::MAX
        &&& rows_distinct(rows)
        &&& edges_sound(self.graph)
        &&& forall|a: int| 0 <= a < rows.len() ==> (#[trigger] graph_targets(self.graph, a)).no_duplicates()
        &&& forall|a: int| 0 <= a < rows.len() ==> #[trigger] weighted_minus_one(self.graph, a)
        &&& forall|i: int| 0 <= i < self.pending().len() ==> task_ok(#[trigger] self.pending()[i], rows, tables)
        &&& forall|j: int| 0 <= j < self.answers@.len() ==> (#[trigger] self.answers@[j]).0 < rows.len()
        &&& match self.awaiting() {
            Some((n, d, q)) => n < rows.len() && planned(rows[n as int], d, q, tables),
            None => true,
        }
        &&& walk_progress(rows, self.graph, self.pending(), self.awaiting(), self.answers@, self.visits@, tables)
    }

    /// A walk from `row`, read from `raw`: the graph holds that row alone,
    /// and the rows it refers to are visited first, then those that refer
    /// to it.
    pub fn new(row: PsqlTableRow, raw: R, tables: &PsqlTableMap) -> (w: RelationWalk<R>)
        ensures
            w.wf(tables@),
            w.rows() == seq![row@],
            w.raws() == seq![raw],
            w.awaiting() is None,
            w.pending() == seq![
                TaskModel::Visit { node: 0, direction: Direction::Referenced },
                TaskModel::Visit { node: 0, direction: Direction::Referencing },
            ],
            w.answers() == Seq::<Answer>::empty(),
            w.visited() == Set::<(usize, Direction)>::empty(),
            !w.finished(),
    {
        let mut graph: Graph<PsqlTableRow, i32, Directed, u32> = new_graph();
        let ghost g0 = graph;
        let ghost r = row@;
        let first = find_or_add_row(&mut graph, row);
        proof {
            tables.lemma_ids();
            assert(finds_or_adds(g0, graph, r, first));
            assert(!(exists|k: int| 0 <= k < graph_rows(g0).len() && same_row(graph_rows(g0)[k], r)));
            assert(graph_rows(graph) =~= seq![r]);
        }
        let mut tasks: Vec<WalkTask<R>> = Vec::new();
        tasks.push(WalkTask::Visit { node: 0, direction: Direction::Referenced });
        tasks.push(WalkTask::Visit { node: 0, direction: Direction::Referencing });
        let mut raws: Vec<R> = Vec::new();
        raws.push(raw);
        let w = RelationWalk {
            graph,
            raws,
            tasks,
            awaiting: None,
            asked: Ghost(arbitrary()),
            answers: Ghost(Seq::empty()),
            visits: Ghost(Set::empty()),
        };
        proof {
            let va = TaskModel::Visit { node: 0, direction: Direction::Referenced };
            let vb = TaskModel::Visit { node: 0, direction: Direction::Referencing };
            assert(w.pending() =~= seq![va, vb]) by {
                assert(w.pending()[0] == task_view(w.tasks@[0]));
                assert(w.pending()[1] == task_view(w.tasks@[1]));
            }
            assert(w.pending()[0] == va);
            assert(w.pending()[1] == vb);
            assert(visit_pending(w.pending(), 0, Direction::Referenced));
            assert(visit_pending(w.pending(), 0, Direction::Referencing));
            assert(w.raws@ =~= seq![raw]);
            assert(graph_targets(w.graph, 0) == Seq::<usize>::empty());
            assert forall|a: int, k: int|
                0 <= a < graph_rows(w.graph).len() && 0 <= k < graph_targets(w.graph, a).len() implies {
                let t = #[trigger] graph_targets(w.graph, a)[k];
                &&& t < graph_rows(w.graph).len()
                &&& follows_to(graph_rows(w.graph)[a].table, Direction::Referencing, graph_rows(w.graph)[t as int].table.id)
                    || follows_to(graph_rows(w.graph)[t as int].table, Direction::Referenced, graph_rows(w.graph)[a].table.id)
            } by {
                assert(a == 0);
            }
            assert forall|a: int| 0 <= a < graph_rows(w.graph).len() implies (#[trigger] graph_targets(w.graph, a)).no_duplicates() by {
                assert(a == 0);
            }
            assert forall|a: int| 0 <= a < graph_rows(w.graph).len() implies #[trigger] weighted_minus_one(w.graph, a) by {
                assert(a == 0);
                assert(graph_weights(w.graph, 0) == Seq::<i32>::empty());
            }
        }
        w
    }

    /// The graph built so far.
    pub fn graph(&self) -> (g: &Graph<PsqlTableRow, i32, Directed, u32>)
        ensures
            *g == self.graph_view(),
            graph_rows(*g) == self.rows(),
    {
        &self.graph
    }

    /// What node `node`'s row was read from.
    pub fn raw(&self, node: usize) -> (r: &R)
        requires
            node < self.raws().len(),
        ensures
            *r == self.raws()[node as int],
    {
        &self.raws[node]
    }

    /// The rows fetched for the awaited fetch, each with what it was read
    /// from: the answer is recorded, and one task per row will add it to the
    /// graph and link it with the row it was fetched for.
    pub fn answer(&mut self, tables: &PsqlTableMap, fetched: Vec<(PsqlTableRow, R)>)
        requires
            old(self).wf(tables@),
            old(self).awaiting() is Some,
            forall|i: int|
                0 <= i < fetched@.len() ==> (#[trigger] fetched@[i]).0@.table == old(
                    self,
                ).awaiting().unwrap().2.0,
        ensures
            final(self).wf(tables@),
            final(self).awaiting() is None,
            final(self).rows() == old(self).rows(),
            final(self).raws() == old(self).raws(),
            final(self).graph_view() == old(self).graph_view(),
            final(self).visited() == old(self).visited(),
            final(self).answers() == old(self).answers().push(
                (
                    old(self).awaiting().unwrap().0,
                    old(self).awaiting().unwrap().1,
                    old(self).awaiting().unwrap().2,
                    fetched@.map_values(|p: (PsqlTableRow, R)| p.0@),
                ),
            ),
            final(self).pending() == old(self).pending() + adds(
                old(self).awaiting().unwrap().0,
                old(self).awaiting().unwrap().1,
                fetched@.map_values(|p: (PsqlTableRow, R)| p.0@),
            ),
    {
        let ghost rows = graph_rows(self.graph);
        let ghost p0 = self.pending();
        let ghost ans0 = self.answers@;
        let (node, direction) = match self.awaiting.take() {
            Some(a) => a,
            None => {
                assert(false);
                return;
            },
        };
        let ghost q = self.asked@;
        let ghost views = fetched@.map_values(|p: (PsqlTableRow, R)| p.0@);
        let ghost all = adds(node, direction, views);
        proof {
            lemma_planned_follows(rows[node as int], direction, q, tables@);
        }
        self.answers = Ghost(self.answers@.push((node, direction, q, views)));
        let mut fetched = fetched;
        let ghost fall = fetched@;
        let ghost g0 = self.graph;
        let ghost r0 = self.raws@;
        let ghost vis0 = self.visits@;
        while fetched.len() > 0
            invariant
                self.graph == g0,
                self.visits@ == vis0,
                self.asked@ == q,
                self.raws@ == r0,
                self.awaiting is None,
                self.answers@ == ans0.push((node, direction, q, views)),
                rows == graph_rows(self.graph),
                node < rows.len(),
                follows_to(rows[node as int].table, direction, q.0.id),
                views == fall.map_values(|p: (PsqlTableRow, R)| p.0@),
                all == adds(node, direction, views),
                fetched@ == fall.take(fetched@.len() as int),
                fetched@.len() <= fall.len(),
                forall|i: int| 0 <= i < fall.len() ==> (#[trigger] fall[i]).0@.table == q.0,
                self.pending() == p0 + all.take(fall.len() - fetched@.len()),
            decreases fetched@.len(),
        {
            let ghost pb = self.pending();
            let ghost m = fall.len() - fetched@.len();
            let ghost last = fetched@.len() - 1;
            let (row, raw) = fetched.pop().unwrap();
            assert(row == fall[last].0);
            assert(fetched@ =~= fall.take(last));
            let ghost tb = self.tasks@;
            self.tasks.push(WalkTask::Add { node, direction, row, raw });
            proof {
                let t = WalkTask::Add { node, direction, row, raw };
                assert(self.tasks@ == tb.push(t));
                assert(self.pending() =~= pb.push(task_view(t))) by {
                    assert forall|i: int| 0 <= i < self.tasks@.len() implies #[trigger] self.pending()[i] == pb.push(task_view(t))[i] by {
                        if i < tb.len() {
                            assert(self.tasks@[i] == tb[i]);
                        }
                    }
                }
                assert(all[m] == task_view(t)) by {
                    assert(views[last] == fall[last].0@);
                }
                assert(all.take(m + 1) =~= all.take(m).push(all[m]));
                assert(p0 + all.take(m + 1) =~= (p0 + all.take(m)).push(all[m]));
            }
        }
        proof {
            let p1 = self.pending();
            assert(all.take(all.len() as int) =~= all);
            assert(p1 == p0 + all);
            assert forall|i: int| 0 <= i < p1.len() implies task_ok(#[trigger] p1[i], rows, tables@) by {
                if i >= p0.len() {
                    let k = i - p0.len();
                    assert(p1[i] == all[k]);
                    assert(views[views.len() - 1 - k] == fall[views.len() - 1 - k].0@);
                } else {
                    assert(p1[i] == p0[i]);
                }
            }
            assert(self.answers@[ans0.len() as int].0 == node);
            lemma_answer_step(rows, g0, p0, p1, ans0, vis0, tables@, node, direction, q, views);
        }
    }

    /// Takes the walk to its next fetch, doing the work that needs no fetch on
    /// the way: planning the queries of a row, and adding a fetched row to the
    /// graph (once) and linking it with the row it was fetched for, from the
    /// referring row to the referred one. When the walk is over it is closed
    /// (see `walk_closed`). A task that meets a foreign key to an unknown
    /// table, or a full graph, stays pending.
    pub fn next(&mut self, tables: &PsqlTableMap) -> (step: WalkStep)
        requires
            old(self).wf(tables@),
            old(self).awaiting() is None,
        ensures
            final(self).wf(tables@),
            old(self).rows().len() <= final(self).rows().len(),
            forall|i: int| 0 <= i < old(self).rows().len() ==> #[trigger] final(self).rows()[i] == old(self).rows()[i],
            forall|i: int| 0 <= i < old(self).raws().len() ==> #[trigger] final(self).raws()[i] == old(self).raws()[i],
            final(self).answers() == old(self).answers(),
            step is Done ==> final(self).finished() && walk_closed(
                final(self).rows(),
                final(self).graph_view(),
                final(self).answers(),
                final(self).visited(),
                tables@,
            ),
            step matches WalkStep::Fetch { node, query } ==> {
                &&& final(self).awaiting() matches Some((n, d, q)) && n == node && q == (
                    query.table@,
                    query.column_name@,
                    query.id_column@,
                ) && planned(final(self).rows()[node as int], d, q, tables@)
                &&& node < final(self).raws().len()
            },
            !(step is Fetch) ==> final(self).awaiting() is None,
            step is Full ==> graph_rows(final(self).graph_view()).len() == u32::MAX || graph_edge_count(
                final(self).graph_view(),
            ) == u32::MAX,
            step is UnknownTable ==> exists|n: int, d: Direction|
                0 <= n < final(self).rows().len() && !#[trigger] keys_known(final(self).rows()[n].table, d, tables@),
    {
        loop
            invariant
                self.wf(tables@),
                self.awaiting is None,
                old(self).rows().len() <= graph_rows(self.graph).len(),
                forall|i: int| 0 <= i < old(self).rows().len() ==> #[trigger] graph_rows(self.graph)[i] == old(self).rows()[i],
                forall|i: int| 0 <= i < old(self).raws().len() ==> #[trigger] self.raws@[i] == old(self).raws()[i],
                old(self).raws@.len() <= self.raws@.len(),
                self.answers@ == old(self).answers(),
            decreases tasks_weight(self.tasks@),
        {
            let ghost before = self.tasks@;
            let ghost p0 = self.pending();
            let ghost rows = graph_rows(self.graph);
            let ghost g0 = self.graph;
            let ghost vis0 = self.visits@;
            let task = match self.tasks.pop() {
                Some(t) => t,
                None => {
                    proof {
                        assert(p0 =~= Seq::<TaskModel>::empty());
                        lemma_closed(rows, g0, self.answers@, self.visits@, tables@);
                    }
                    return WalkStep::Done;
                },
            };
            proof {
                assert(self.tasks@ =~= before.drop_last());
                assert(task == before.last());
                assert(p0[p0.len() - 1] == task_view(task));
                assert(task_ok(p0[p0.len() - 1], rows, tables@));
                assert(self.pending() =~= p0.drop_last()) by {
                    assert forall|i: int| 0 <= i < self.tasks@.len() implies #[trigger] self.pending()[i] == p0.drop_last()[i] by {
                        assert(self.tasks@[i] == before[i]);
                    }
                }
            }
            match task {
                WalkTask::Fetch { node, direction, query } => {
                    self.awaiting = Some((node, direction));
                    self.asked = Ghost((query.table@, query.column_name@, query.id_column@));
                    proof {
                        lemma_fetch_step(rows, g0, p0, self.answers@, self.visits@, tables@, node, direction, self.asked@);
                    }
                    return WalkStep::Fetch { node, query };
                },
                WalkTask::Visit { node, direction } => {
                    let row = node_row(&self.graph, node).clone();
                    let fks = match direction {
                        Direction::Referencing => &row.table.referencing_fk_by_constraint_name,
                        Direction::Referenced => &row.table.referenced_fk_by_constraint_name,
                    };
                    let known = targets_in(fks, tables);
                    if !known {
                        self.tasks.push(WalkTask::Visit { node, direction });
                        proof {
                            assert(self.tasks@ =~= before);
                            let name = choose|name: Seq<char>|
                                #[trigger] fks@.contains_key(name) && !tables@.contains_key(fks@[name].foreign_table);
                            assert(row@ == rows[node as int]);
                            match direction {
                                Direction::Referencing => {
                                    assert(fks@ == rows[node as int].table.referencing_fk_by_constraint_name);
                                    assert(rows[node as int].table.referencing_fk_by_constraint_name.contains_key(name));
                                },
                                Direction::Referenced => {
                                    assert(fks@ == rows[node as int].table.referenced_fk_by_constraint_name);
                                    assert(rows[node as int].table.referenced_fk_by_constraint_name.contains_key(name));
                                },
                            }
                            assert(!keys_known(rows[node as int].table, direction, tables@));
                            assert(graph_rows(self.graph) == rows);
                            assert(!keys_known(self.rows()[node as int].table, direction, tables@));
                        }
                        return WalkStep::UnknownTable;
                    }
                    let queries = match direction {
                        Direction::Referencing => RelationFetcher::referencing_queries(&row, tables),
                        Direction::Referenced => RelationFetcher::referenced_queries(&row, tables),
                    };
                    let ghost ev = fks.entry_views();
                    let _entries = fks.entries();
                    assert(queries@.len() == ev.len()) by {
                        assert(query_views(queries@).len() == queries@.len());
                    }
                    let mut queries = queries;
                    let ghost qs = queries@;
                    let ghost base = self.tasks@;
                    let ghost pb = self.pending();
                    while queries.len() > 0
                        invariant
                            rows == graph_rows(self.graph),
                            g0 == self.graph,
                            self.visits@ == vis0,
                            self.answers@ == old(self).answers(),
                            p0.len() > 0,
                            node < rows.len(),
                            row@ == rows[node as int],
                            targets_known(ev, tables@),
                            ev == fks.entry_views(),
                            direction == Direction::Referencing ==> fks@ == row@.table.referencing_fk_by_constraint_name
                                && query_views(qs) == parent_queries(ev, tables@),
                            direction == Direction::Referenced ==> fks@ == row@.table.referenced_fk_by_constraint_name
                                && query_views(qs) == child_queries(ev, tables@, row.table.primary_column@),
                            forall|k: int| 0 <= k < ev.len() ==> fks@.contains_key((#[trigger] ev[k]).0) && fks@[ev[k].0] == ev[k].1,
                            queries@ == qs.take(queries@.len() as int),
                            queries@.len() <= qs.len(),
                            qs.len() == ev.len(),
                            pb == p0.drop_last(),
                            self.pending().len() >= pb.len(),
                            forall|t: int| 0 <= t < pb.len() ==> #[trigger] self.pending()[t] == pb[t],
                            forall|k: int| queries@.len() <= k < qs.len() ==> fetch_pending(
                                self.pending(),
                                node,
                                direction,
                                (#[trigger] query_views(qs)[k]),
                            ),
                            forall|i: int| 0 <= i < self.pending().len() ==> task_ok(#[trigger] self.pending()[i], rows, tables@),
                            tasks_weight(self.tasks@) == tasks_weight(base),
                            self.awaiting is None,
                            self.raws@.len() == rows.len(),
                            old(self).raws@.len() <= self.raws@.len(),
                            old(self).rows().len() <= rows.len(),
                            forall|i: int| 0 <= i < old(self).rows().len() ==> #[trigger] rows[i] == old(self).rows()[i],
                            forall|i: int| 0 <= i < old(self).raws().len() ==> #[trigger] self.raws@[i] == old(self).raws()[i],
                        decreases queries@.len(),
                    {
                        let ghost tb = self.tasks@;
                        let ghost pt = self.pending();
                        let k = queries.len() - 1;
                        let query = queries.pop().unwrap();
                        assert(query == qs[k as int]);
                        assert(queries@ =~= qs.take(k as int));
                        let ghost qv = (query.table@, query.column_name@, query.id_column@);
                        proof {
                            let e = ev[k as int];
                            assert(query_views(qs)[k as int] == qv);
                            assert(fks@.contains_key(e.0) && fks@[e.0] == e.1);
                            assert(tables@.contains_key(e.1.foreign_table));
                            lemma_planned_entry(rows[node as int], direction, fks@, e, qv, tables@);
                        }
                        self.tasks.push(WalkTask::Fetch { node, direction, query });
                        proof {
                            let t = TaskModel::Fetch { node, direction, query: qv };
                            assert(self.pending() =~= pt.push(t)) by {
                                assert forall|i: int| 0 <= i < self.tasks@.len() implies #[trigger] self.pending()[i] == pt.push(t)[i] by {
                                    if i < tb.len() {
                                        assert(self.tasks@[i] == tb[i]);
                                    }
                                }
                            }
                            assert(self.tasks@.drop_last() =~= tb);
                            assert(self.pending()[pt.len() as int] == t);
                            assert forall|i: int| 0 <= i < self.pending().len() implies task_ok(#[trigger] self.pending()[i], rows, tables@) by {
                                if i < pt.len() {
                                    assert(self.pending()[i] == pt[i]);
                                }
                            }
                            assert forall|i: int| 0 <= i < pb.len() implies #[trigger] self.pending()[i] == pb[i] by {
                                assert(self.pending()[i] == pt[i]);
                            }
                            assert forall|j: int| queries@.len() <= j < qs.len() implies fetch_pending(
                                self.pending(),
                                node,
                                direction,
                                #[trigger] query_views(qs)[j],
                            ) by {
                                if j == k {
                                    assert(self.pending()[pt.len() as int] == t);
                                } else {
                                    let w = choose|w: int|
                                        0 <= w < pt.len() && #[trigger] pt[w] == (TaskModel::Fetch { node, direction, query: query_views(qs)[j] });
                                    assert(self.pending()[w] == pt[w]);
                                }
                            }
                        }
                    }
                    proof {
                        let p1 = self.pending();
                        assert forall|q: QueryModel| planned(rows[node as int], direction, q, tables@) implies fetch_pending(
                            p1,
                            node,
                            direction,
                            q,
                        ) by {
                            lemma_planned_listed(rows[node as int], direction, q, tables@, fks@, ev);
                            let k = choose|k: int|
                                0 <= k < ev.len() && planned_by(ev[k].1, rows[node as int], direction, q, tables@);
                            assert(query_views(qs)[k] == q);
                        }
                        assert forall|t: int| 0 <= t < p0.len() - 1 implies #[trigger] p1[t] == p0[t] by {
                            assert(p1[t] == pb[t]);
                        }
                        lemma_visit_step(rows, g0, p0, p1, self.answers@, self.visits@, tables@, node, direction);
                    }
                    self.visits = Ghost(self.visits@.insert((node, direction)));
                },
                WalkTask::Add { node, direction, row, raw } => {
                    if node_count(&self.graph) >= 0xffff_ffff || edge_count(&self.graph) >= 0xffff_ffff {
                        self.tasks.push(WalkTask::Add { node, direction, row, raw });
                        proof {
                            assert(self.tasks@ =~= before);
                        }
                        return WalkStep::Full;
                    }
                    let ghost added = row@;
                    let index = find_or_add_row(&mut self.graph, row);
                    let ghost raws0 = self.raws@;
                    let ghost g1 = self.graph;
                    proof {
                        assert(finds_or_adds(g0, g1, added, index));
                        if exists|q: int| 0 <= q < rows.len() && same_row(rows[q], added) {
                            assert(graph_rows(g1) == rows);
                            assert(index < rows.len());
                        } else {
                            assert(graph_rows(g1) == rows.push(added));
                        }
                    }
                    if index == self.raws.len() {
                        let ghost rw = raw;
                        self.raws.push(raw);
                        assert(self.raws@ == raws0.push(rw));
                    }
                    assert forall|i: int| 0 <= i < old(self).raws@.len() implies #[trigger] self.raws@[i] == old(
                        self,
                    ).raws@[i] by {
                        assert(raws0[i] == old(self).raws@[i]);
                        assert(self.raws@[i] == raws0[i]);
                    }
                    assert(self.raws@.len() == graph_rows(g1).len());
                    proof {
                        assert forall|i: int| 0 <= i < rows.len() implies #[trigger] graph_rows(g1)[i] == rows[i] by {
                            if !(exists|q: int| 0 <= q < rows.len() && same_row(rows[q], added)) {
                                assert(graph_rows(g1) == rows.push(added));
                            }
                        }
                        assert(graph_rows(g1)[index as int].table.id == added.table.id);
                    }
                    match direction {
                        Direction::Referencing => link_rows(&mut self.graph, node, index),
                        Direction::Referenced => link_rows(&mut self.graph, index, node),
                    };
                    let ghost g2 = self.graph;
                    let ghost tb = self.tasks@;
                    let ghost pt = self.pending();
                    if direction == Direction::Referenced {
                        self.tasks.push(WalkTask::Visit { node: index, direction: Direction::Referenced });
                    }
                    self.tasks.push(WalkTask::Visit { node: index, direction: Direction::Referencing });
                    proof {
                        if direction == Direction::Referencing {
                            lemma_link_sound(g1, g2, node, index);
                        } else {
                            lemma_link_sound(g1, g2, index, node);
                        }
                        lemma_add_grows(g0, g1, g2, added, node, index, direction);
                        let rows2 = graph_rows(g2);
                        let va = WalkTask::<R>::Visit { node: index, direction: Direction::Referenced };
                        let vb = WalkTask::<R>::Visit { node: index, direction: Direction::Referencing };
                        let p1 = self.pending();
                        if direction == Direction::Referenced {
                            assert(self.tasks@ =~= tb.push(va).push(vb));
                            assert(tb.push(va).push(vb).drop_last() =~= tb.push(va));
                            assert(tb.push(va).drop_last() =~= tb);
                            assert(tasks_weight(tb.push(va)) == tasks_weight(tb) + 1);
                            assert(tasks_weight(tb.push(va).push(vb)) == tasks_weight(tb.push(va)) + 1);
                            assert(p1 =~= pt.push(task_view(va)).push(task_view(vb))) by {
                                assert forall|i: int| 0 <= i < p1.len() implies #[trigger] p1[i] == pt.push(task_view(va)).push(task_view(vb))[i] by {
                                    if i < tb.len() {
                                        assert(self.tasks@[i] == tb[i]);
                                    }
                                }
                            }
                            assert(p1[pt.len() as int] == task_view(va));
                            assert(p1[pt.len() + 1int] == task_view(vb));
                            assert(visit_pending(p1, index, Direction::Referenced));
                        } else {
                            assert(self.tasks@ =~= tb.push(vb));
                            assert(tb.push(vb).drop_last() =~= tb);
                            assert(tasks_weight(tb.push(vb)) == tasks_weight(tb) + 1);
                            assert(p1 =~= pt.push(task_view(vb))) by {
                                assert forall|i: int| 0 <= i < p1.len() implies #[trigger] p1[i] == pt.push(task_view(vb))[i] by {
                                    if i < tb.len() {
                                        assert(self.tasks@[i] == tb[i]);
                                    }
                                }
                            }
                            assert(p1[pt.len() as int] == task_view(vb));
                        }
                        assert(visit_pending(p1, index, Direction::Referencing));
                        assert(before.last() is Add);
                        assert(before.drop_last() =~= tb);
                        assert(tasks_weight(before) == tasks_weight(tb) + 3);
                        assert(tasks_weight(self.tasks@) < tasks_weight(before));
                        assert(same_row(rows2[index as int], added));
                        assert forall|i: int| 0 <= i < p1.len() implies task_ok(#[trigger] p1[i], rows2, tables@) by {
                            if i < pt.len() {
                                assert(p1[i] == pt[i]);
                                assert(pt[i] == p0[i]);
                                assert(task_ok(p0[i], rows, tables@));
                                lemma_task_ok_grows(p0[i], rows, rows2, tables@);
                            } else {
                                assert(p1[i] == task_view(va) || p1[i] == task_view(vb));
                            }
                        }
                        assert forall|a: int| 0 <= a < rows2.len() implies (#[trigger] graph_targets(g2, a)).no_duplicates() by {
                            if a < rows.len() {
                                assert(graph_targets(g1, a) == graph_targets(g0, a));
                            } else {
                                assert(graph_targets(g1, a) == Seq::<usize>::empty());
                            }
                            let from = if direction == Direction::Referencing { node } else { index };
                            if a != from {
                                assert(graph_targets(g2, a) == graph_targets(g1, a));
                            }
                        }
                        assert forall|t: int| 0 <= t < p0.len() - 1 implies #[trigger] p1[t] == p0[t] by {
                            assert(p1[t] == pt[t]);
                        }
                        assert forall|a: int| 0 <= a < rows2.len() implies #[trigger] weighted_minus_one(g2, a) by {
                            if a < rows.len() {
                                assert(weighted_minus_one(g0, a));
                                assert(graph_targets(g1, a) == graph_targets(g0, a));
                                assert(graph_weights(g1, a) == graph_weights(g0, a));
                            } else {
                                assert(graph_targets(g1, a) == Seq::<usize>::empty());
                                assert(graph_weights(g1, a) == Seq::<i32>::empty());
                            }
                            let from = if direction == Direction::Referencing { node } else { index };
                            if a != from {
                                assert(graph_targets(g2, a) == graph_targets(g1, a));
                                assert(graph_weights(g2, a) == graph_weights(g1, a));
                            } else {
                                assert forall|m: int| 0 <= m < graph_weights(g2, a).len() implies #[trigger] graph_weights(g2, a)[m] == -1 by {
                                    if !graph_targets(g1, a).contains(if direction == Direction::Referencing { index } else { node }) && m > 0 {
                                        assert(graph_weights(g2, a)[m] == graph_weights(g1, a)[m - 1]);
                                    }
                                }
                            }
                        }
                        lemma_add_step(g0, g2, p0, p1, self.answers@, self.visits@, tables@, node, direction, added, index as int);
                    }
                },
            }
        }
    }

    /// The graph of a consistent walk holds each row once, one raw per row,
    /// at most one edge from a node to another, every edge of weight `-1`,
    /// and every edge runs from a row to a row it refers to.
    pub proof fn lemma_graph_sound(&self, tables: Map<TableIdModel, TableModel>)
        requires
            self.wf(tables),
        ensures
            rows_distinct(self.rows()),
            self.raws().len() == self.rows().len(),
            edges_sound(self.graph_view()),
            graph_rows(self.graph_view()) == self.rows(),
            forall|a: int|
                0 <= a < self.rows().len() ==> (#[trigger] graph_targets(self.graph_view(), a)).no_duplicates(),
            forall|a: int| 0 <= a < self.rows().len() ==> #[trigger] weighted_minus_one(self.graph_view(), a),
    {
    }

    /// The graph of the walk.
    pub fn into_graph(self) -> (g: Graph<PsqlTableRow, i32, Directed, u32>)
        ensures
            g == self.graph_view(),
    {
        self.graph
    }
}

/// `query` follows the foreign key `fk` of `row` in `direction`.
pub open spec fn planned_by(
    fk: ForeignKeyModel,
    row: RowModel,
    direction: Direction,
    query: QueryModel,
    tables: Map<TableIdModel, TableModel>,
) -> bool {
    &&& tables.contains_key(fk.foreign_table)
    &&& match direction {
        Direction::Referencing => query == (
            tables[fk.foreign_table],
            tables[fk.foreign_table].primary_column.0,
            fk.column,
        ),
        Direction::Referenced => query == (tables[fk.foreign_table], fk.column.0, row.table.primary_column),
    }
}

/// A planned query follows one of the listed keys of its row.
proof fn lemma_planned_listed(
    row: RowModel,
    direction: Direction,
    query: QueryModel,
    tables: Map<TableIdModel, TableModel>,
    fks: Map<Seq<char>, ForeignKeyModel>,
    ev: Seq<(Seq<char>, ForeignKeyModel)>,
)
    requires
        planned(row, direction, query, tables),
        direction == Direction::Referencing ==> row.table.referencing_fk_by_constraint_name == fks,
        direction == Direction::Referenced ==> row.table.referenced_fk_by_constraint_name == fks,
        forall|name: Seq<char>|
            #[trigger] fks.contains_key(name) ==> exists|k: int| 0 <= k < ev.len() && ev[k].0 == name,
        forall|k: int| 0 <= k < ev.len() ==> fks.contains_key((#[trigger] ev[k]).0) && fks[ev[k].0] == ev[k].1,
    ensures
        exists|k: int| 0 <= k < ev.len() && planned_by(ev[k].1, row, direction, query, tables),
{
    let name = match direction {
        Direction::Referencing => choose|name: Seq<char>|
            row.table.referencing_fk_by_constraint_name.contains_key(name) && {
                let fk = #[trigger] row.table.referencing_fk_by_constraint_name[name];
                &&& tables.contains_key(fk.foreign_table)
                &&& query == (
                    tables[fk.foreign_table],
                    tables[fk.foreign_table].primary_column.0,
                    fk.column,
                )
            },
        Direction::Referenced => choose|name: Seq<char>|
            row.table.referenced_fk_by_constraint_name.contains_key(name) && {
                let fk = #[trigger] row.table.referenced_fk_by_constraint_name[name];
                &&& tables.contains_key(fk.foreign_table)
                &&& query == (tables[fk.foreign_table], fk.column.0, row.table.primary_column)
            },
    };
    assert(fks.contains_key(name));
    let k = choose|k: int| 0 <= k < ev.len() && ev[k].0 == name;
    assert(fks[ev[k].0] == ev[k].1);
    assert(planned_by(ev[k].1, row, direction, query, tables));
}

/// A task about the first nodes stays sound when rows are added after them.
proof fn lemma_task_ok_grows(
    t: TaskModel,
    rows0: Seq<RowModel>,
    rows1: Seq<RowModel>,
    tables: Map<TableIdModel, TableModel>,
)
    requires
        task_ok(t, rows0, tables),
        rows0.len() <= rows1.len(),
        forall|i: int| 0 <= i < rows0.len() ==> #[trigger] rows1[i] == rows0[i],
    ensures
        task_ok(t, rows1, tables),
{
    match t {
        TaskModel::Visit { .. } => {},
        TaskModel::Fetch { node, .. } => {
            assert(rows1[node as int] == rows0[node as int]);
        },
        TaskModel::Add { node, .. } => {
            assert(rows1[node as int] == rows0[node as int]);
        },
    }
}

/// Finding or adding a row, then linking it with `node`, grows the graph and
/// links the two.
proof fn lemma_add_grows(
    g0: Graph<PsqlTableRow, i32, Directed, u32>,
    g1: Graph<PsqlTableRow, i32, Directed, u32>,
    g2: Graph<PsqlTableRow, i32, Directed, u32>,
    row: RowModel,
    node: usize,
    index: usize,
    direction: Direction,
)
    requires
        finds_or_adds(g0, g1, row, index),
        node < graph_rows(g0).len(),
        direction == Direction::Referencing ==> links(g1, g2, node, index),
        direction == Direction::Referenced ==> links(g1, g2, index, node),
    ensures
        grows(g0, g2),
        linked(g2, node, direction, index as int),
        graph_rows(g2) == graph_rows(g1),
        graph_rows(g1).len() <= graph_rows(g0).len() + 1,
        graph_edge_count(g2) <= graph_edge_count(g0) + 1,
{
    let (from, to) = if direction == Direction::Referencing { (node, index) } else { (index, node) };
    assert(links(g1, g2, from, to));
    assert forall|i: int| 0 <= i < graph_rows(g0).len() implies #[trigger] graph_rows(g2)[i] == graph_rows(g0)[i] by {
        if !(exists|q: int| 0 <= q < graph_rows(g0).len() && same_row(graph_rows(g0)[q], row)) {
            assert(graph_rows(g1) == graph_rows(g0).push(row));
        }
    }
    assert forall|a: int, b: usize|
        0 <= a < graph_rows(g0).len() && #[trigger] graph_targets(g0, a).contains(b) implies graph_targets(
        g2,
        a,
    ).contains(b) by {
        assert(graph_targets(g1, a) == graph_targets(g0, a));
        if a == from && !graph_targets(g1, from as int).contains(to) {
            let w = choose|w: int| 0 <= w < graph_targets(g1, a).len() && graph_targets(g1, a)[w] == b;
            assert(graph_targets(g2, a)[w + 1] == b);
        }
    }
    if !graph_targets(g1, from as int).contains(to) {
        assert(graph_targets(g2, from as int)[0] == to);
    }
}

/// Covered visits only grow when pending tasks are kept.
proof fn lemma_covered_grows(
    vis0: Set<(usize, Direction)>,
    p0: Seq<TaskModel>,
    vis1: Set<(usize, Direction)>,
    p1: Seq<TaskModel>,
    p: (usize, Direction),
)
    requires
        covered(vis0, p0).contains(p),
        vis0.subset_of(vis1),
        keeps_but_last(p0, p1),
        forall|n: usize, d: Direction|
            p0[p0.len() - 1] == (TaskModel::Visit { node: n, direction: d }) ==> #[trigger] vis1.contains((n, d)),
    ensures
        covered(vis1, p1).contains(p),
{
    if !vis0.contains(p) {
        assert(visit_pending(p0, p.0, p.1));
        let t = choose|t: int| 0 <= t < p0.len() && #[trigger] p0[t] == (TaskModel::Visit { node: p.0, direction: p.1 });
        if t < p0.len() - 1 {
            assert(p1[t] == p0[t]);
            assert(visit_pending(p1, p.0, p.1));
        } else {
            assert(vis1.contains((p.0, p.1)));
        }
    }
}

/// A placed row stays placed as the graph grows and visits are added.
proof fn lemma_placed_grows(
    g0: Graph<PsqlTableRow, i32, Directed, u32>,
    g1: Graph<PsqlTableRow, i32, Directed, u32>,
    vis0: Set<(usize, Direction)>,
    vis1: Set<(usize, Direction)>,
    node: usize,
    direction: Direction,
    row: RowModel,
)
    requires
        placed(graph_rows(g0), g0, vis0, node, direction, row),
        grows(g0, g1),
        node < graph_rows(g0).len(),
        vis0.subset_of(vis1),
    ensures
        placed(graph_rows(g1), g1, vis1, node, direction, row),
{
    let rows0 = graph_rows(g0);
    let i = choose|i: int|
        0 <= i < rows0.len() && #[trigger] same_row(rows0[i], row) && linked(g0, node, direction, i)
            && vis0.contains((i as usize, Direction::Referencing)) && (direction == Direction::Referenced
            ==> vis0.contains((i as usize, Direction::Referenced)));
    assert(graph_rows(g1)[i] == rows0[i]);
    match direction {
        Direction::Referencing => {
            assert(graph_targets(g0, node as int).contains(i as usize));
        },
        Direction::Referenced => {
            assert(graph_targets(g0, i).contains(node));
        },
    }
    assert(same_row(graph_rows(g1)[i], row));
}

/// Handing out the last pending fetch moves its obligation to the awaited
/// fetch.
proof fn lemma_fetch_step(
    rows: Seq<RowModel>,
    g: Graph<PsqlTableRow, i32, Directed, u32>,
    p0: Seq<TaskModel>,
    answers: Seq<Answer>,
    visits: Set<(usize, Direction)>,
    tables: Map<TableIdModel, TableModel>,
    node: usize,
    direction: Direction,
    query: QueryModel,
)
    requires
        walk_progress(rows, g, p0, None, answers, visits, tables),
        p0.len() > 0,
        p0[p0.len() - 1] == (TaskModel::Fetch { node, direction, query }),
    ensures
        walk_progress(rows, g, p0.drop_last(), Some((node, direction, query)), answers, visits, tables),
{
    let p1 = p0.drop_last();
    assert forall|p: (usize, Direction)| covered(visits, p0).contains(p) implies covered(visits, p1).contains(p) by {
        lemma_covered_grows(visits, p0, visits, p1, p);
    }
    assert forall|n: usize, d: Direction, q: QueryModel|
        visits.contains((n, d)) && planned(rows[n as int], d, q, tables) implies answered(answers, n, d, q)
        || Some((node, direction, query)) == Some((n, d, q)) || fetch_pending(p1, n, d, q) by {
        if fetch_pending(p0, n, d, q) {
            let t = choose|t: int| 0 <= t < p0.len() && #[trigger] p0[t] == (TaskModel::Fetch { node: n, direction: d, query: q });
            if t < p0.len() - 1 {
                assert(p1[t] == p0[t]);
            }
        }
    }
    assert forall|j: int, k: int|
        0 <= j < answers.len() && 0 <= k < answers[j].3.len() implies add_pending(
        p1,
        answers[j].0,
        answers[j].1,
        #[trigger] answers[j].3[k],
    ) || placed(rows, g, covered(visits, p1), answers[j].0, answers[j].1, answers[j].3[k]) by {
        let r = answers[j].3[k];
        if add_pending(p0, answers[j].0, answers[j].1, r) {
            let t = choose|t: int|
                0 <= t < p0.len() && #[trigger] p0[t] == (TaskModel::Add { node: answers[j].0, direction: answers[j].1, row: r });
            assert(t < p0.len() - 1);
            assert(p1[t] == p0[t]);
        } else {
            assert(covered(visits, p0) =~= covered(visits, p1)) by {
                assert forall|p: (usize, Direction)| covered(visits, p1).contains(p) implies covered(visits, p0).contains(p) by {
                    if visit_pending(p1, p.0, p.1) {
                        let t = choose|t: int| 0 <= t < p1.len() && #[trigger] p1[t] == (TaskModel::Visit { node: p.0, direction: p.1 });
                        assert(p0[t] == p1[t]);
                    }
                }
            }
        }
    }
}

/// Visiting the last pending visit: the visit is made and each query it
/// plans is pending.
proof fn lemma_visit_step(
    rows: Seq<RowModel>,
    g: Graph<PsqlTableRow, i32, Directed, u32>,
    p0: Seq<TaskModel>,
    p1: Seq<TaskModel>,
    answers: Seq<Answer>,
    visits: Set<(usize, Direction)>,
    tables: Map<TableIdModel, TableModel>,
    node: usize,
    direction: Direction,
)
    requires
        walk_progress(rows, g, p0, None, answers, visits, tables),
        keeps_but_last(p0, p1),
        p0[p0.len() - 1] == (TaskModel::Visit { node, direction }),
        node < rows.len(),
        forall|q: QueryModel| planned(rows[node as int], direction, q, tables) ==> fetch_pending(p1, node, direction, q),
    ensures
        walk_progress(rows, g, p1, None, answers, visits.insert((node, direction)), tables),
{
    let vis1 = visits.insert((node, direction));
    assert forall|p: (usize, Direction)| covered(visits, p0).contains(p) implies covered(vis1, p1).contains(p) by {
        lemma_covered_grows(visits, p0, vis1, p1, p);
    }
    assert forall|n: usize, d: Direction, q: QueryModel|
        vis1.contains((n, d)) && planned(rows[n as int], d, q, tables) implies answered(answers, n, d, q)
        || None::<(usize, Direction, QueryModel)> == Some((n, d, q)) || fetch_pending(p1, n, d, q) by {
        if (n, d) != (node, direction) {
            if fetch_pending(p0, n, d, q) {
                let t = choose|t: int| 0 <= t < p0.len() && #[trigger] p0[t] == (TaskModel::Fetch { node: n, direction: d, query: q });
                assert(t < p0.len() - 1);
                assert(p1[t] == p0[t]);
            }
        }
    }
    assert forall|j: int, k: int|
        0 <= j < answers.len() && 0 <= k < answers[j].3.len() implies add_pending(
        p1,
        answers[j].0,
        answers[j].1,
        #[trigger] answers[j].3[k],
    ) || placed(rows, g, covered(vis1, p1), answers[j].0, answers[j].1, answers[j].3[k]) by {
        let r = answers[j].3[k];
        if add_pending(p0, answers[j].0, answers[j].1, r) {
            let t = choose|t: int|
                0 <= t < p0.len() && #[trigger] p0[t] == (TaskModel::Add { node: answers[j].0, direction: answers[j].1, row: r });
            assert(t < p0.len() - 1);
            assert(p1[t] == p0[t]);
        } else {
            lemma_placed_sets(rows, g, covered(visits, p0), covered(vis1, p1), answers[j].0, answers[j].1, r);
        }
    }
}

/// A placed row stays placed with more visits.
proof fn lemma_placed_sets(
    rows: Seq<RowModel>,
    g: Graph<PsqlTableRow, i32, Directed, u32>,
    vis0: Set<(usize, Direction)>,
    vis1: Set<(usize, Direction)>,
    node: usize,
    direction: Direction,
    row: RowModel,
)
    requires
        placed(rows, g, vis0, node, direction, row),
        forall|p: (usize, Direction)| vis0.contains(p) ==> vis1.contains(p),
    ensures
        placed(rows, g, vis1, node, direction, row),
{
    let i = choose|i: int|
        0 <= i < rows.len() && #[trigger] same_row(rows[i], row) && linked(g, node, direction, i)
            && vis0.contains((i as usize, Direction::Referencing)) && (direction == Direction::Referenced
            ==> vis0.contains((i as usize, Direction::Referenced)));
    assert(same_row(rows[i], row));
}

/// Adding the row of the last pending task and linking it: its obligations
/// are met, and its visits are pending.
proof fn lemma_add_step(
    g0: Graph<PsqlTableRow, i32, Directed, u32>,
    g1: Graph<PsqlTableRow, i32, Directed, u32>,
    p0: Seq<TaskModel>,
    p1: Seq<TaskModel>,
    answers: Seq<Answer>,
    visits: Set<(usize, Direction)>,
    tables: Map<TableIdModel, TableModel>,
    node: usize,
    direction: Direction,
    row: RowModel,
    index: int,
)
    requires
        walk_progress(graph_rows(g0), g0, p0, None, answers, visits, tables),
        forall|j: int| 0 <= j < answers.len() ==> (#[trigger] answers[j]).0 < graph_rows(g0).len(),
        keeps_but_last(p0, p1),
        p0[p0.len() - 1] == (TaskModel::Add { node, direction, row }),
        grows(g0, g1),
        0 <= index < graph_rows(g1).len(),
        same_row(graph_rows(g1)[index], row),
        linked(g1, node, direction, index),
        visit_pending(p1, index as usize, Direction::Referencing),
        direction == Direction::Referenced ==> visit_pending(p1, index as usize, Direction::Referenced),
    ensures
        walk_progress(graph_rows(g1), g1, p1, None, answers, visits, tables),
{
    let rows0 = graph_rows(g0);
    let rows1 = graph_rows(g1);
    let c0 = covered(visits, p0);
    let c1 = covered(visits, p1);
    assert forall|p: (usize, Direction)| c0.contains(p) implies c1.contains(p) by {
        lemma_covered_grows(visits, p0, visits, p1, p);
    }
    assert forall|p: (usize, Direction)| #[trigger] visits.contains(p) implies p.0 < rows1.len() by {
        assert(p.0 < rows0.len());
    }
    assert forall|n: usize, d: Direction, q: QueryModel|
        visits.contains((n, d)) && planned(rows1[n as int], d, q, tables) implies answered(answers, n, d, q)
        || None::<(usize, Direction, QueryModel)> == Some((n, d, q)) || fetch_pending(p1, n, d, q) by {
        assert(n < rows0.len());
        assert(rows1[n as int] == rows0[n as int]);
        if fetch_pending(p0, n, d, q) {
            let t = choose|t: int| 0 <= t < p0.len() && #[trigger] p0[t] == (TaskModel::Fetch { node: n, direction: d, query: q });
            assert(t < p0.len() - 1);
            assert(p1[t] == p0[t]);
        }
    }
    assert(c1.contains((index as usize, Direction::Referencing)));
    assert(direction == Direction::Referenced ==> c1.contains((index as usize, Direction::Referenced)));
    assert forall|j: int, k: int|
        0 <= j < answers.len() && 0 <= k < answers[j].3.len() implies add_pending(
        p1,
        answers[j].0,
        answers[j].1,
        #[trigger] answers[j].3[k],
    ) || placed(rows1, g1, c1, answers[j].0, answers[j].1, answers[j].3[k]) by {
        let r = answers[j].3[k];
        let n = answers[j].0;
        let d = answers[j].1;
        assert(n < rows0.len());
        if add_pending(p0, n, d, r) {
            let t = choose|t: int| 0 <= t < p0.len() && #[trigger] p0[t] == (TaskModel::Add { node: n, direction: d, row: r });
            if t < p0.len() - 1 {
                assert(p1[t] == p0[t]);
            } else {
                assert(n == node && d == direction && r == row);
                assert(same_row(rows1[index], r));
            }
        } else {
            lemma_placed_grows(g0, g1, c0, c1, n, d, r);
        }
    }
}

/// Recording the answer of the awaited fetch: the fetch is answered, and
/// each row it gave is pending.
proof fn lemma_answer_step(
    rows: Seq<RowModel>,
    g: Graph<PsqlTableRow, i32, Directed, u32>,
    p0: Seq<TaskModel>,
    p1: Seq<TaskModel>,
    answers: Seq<Answer>,
    visits: Set<(usize, Direction)>,
    tables: Map<TableIdModel, TableModel>,
    node: usize,
    direction: Direction,
    query: QueryModel,
    fetched: Seq<RowModel>,
)
    requires
        walk_progress(rows, g, p0, Some((node, direction, query)), answers, visits, tables),
        p1 == p0 + adds(node, direction, fetched),
    ensures
        walk_progress(rows, g, p1, None, answers.push((node, direction, query, fetched)), visits, tables),
{
    let a1 = answers.push((node, direction, query, fetched));
    let c0 = covered(visits, p0);
    let c1 = covered(visits, p1);
    assert forall|p: (usize, Direction)| c0.contains(p) implies c1.contains(p) by {
        if !visits.contains(p) {
            let t = choose|t: int| 0 <= t < p0.len() && #[trigger] p0[t] == (TaskModel::Visit { node: p.0, direction: p.1 });
            assert(p1[t] == p0[t]);
        }
    }
    assert forall|n: usize, d: Direction, q: QueryModel|
        visits.contains((n, d)) && planned(rows[n as int], d, q, tables) implies answered(a1, n, d, q)
        || None::<(usize, Direction, QueryModel)> == Some((n, d, q)) || fetch_pending(p1, n, d, q) by {
        if answered(answers, n, d, q) {
            let j = choose|j: int| 0 <= j < answers.len() && (#[trigger] answers[j]).0 == n && answers[j].1 == d && answers[j].2 == q;
            assert(a1[j] == answers[j]);
        } else if (n, d, q) == (node, direction, query) {
            assert(a1[answers.len() as int] == (node, direction, query, fetched));
        } else {
            assert(fetch_pending(p0, n, d, q));
            let t = choose|t: int| 0 <= t < p0.len() && #[trigger] p0[t] == (TaskModel::Fetch { node: n, direction: d, query: q });
            assert(p1[t] == p0[t]);
        }
    }
    assert forall|j: int, k: int|
        0 <= j < a1.len() && 0 <= k < a1[j].3.len() implies add_pending(
        p1,
        a1[j].0,
        a1[j].1,
        #[trigger] a1[j].3[k],
    ) || placed(rows, g, c1, a1[j].0, a1[j].1, a1[j].3[k]) by {
        if j < answers.len() {
            assert(a1[j] == answers[j]);
            let r = answers[j].3[k];
            if add_pending(p0, answers[j].0, answers[j].1, r) {
                let t = choose|t: int|
                    0 <= t < p0.len() && #[trigger] p0[t] == (TaskModel::Add { node: answers[j].0, direction: answers[j].1, row: r });
                assert(p1[t] == p0[t]);
            } else {
                lemma_placed_sets(rows, g, c0, c1, answers[j].0, answers[j].1, r);
            }
        } else {
            let t = p0.len() + (fetched.len() - 1 - k);
            assert(p1[t] == adds(node, direction, fetched)[fetched.len() - 1 - k]);
            assert(p1[t] == (TaskModel::Add { node, direction, row: fetched[k] }));
        }
    }
}

/// With nothing pending or awaited, a walk on its way is closed.
proof fn lemma_closed(
    rows: Seq<RowModel>,
    g: Graph<PsqlTableRow, i32, Directed, u32>,
    answers: Seq<Answer>,
    visits: Set<(usize, Direction)>,
    tables: Map<TableIdModel, TableModel>,
)
    requires
        walk_progress(rows, g, Seq::empty(), None, answers, visits, tables),
    ensures
        walk_closed(rows, g, answers, visits, tables),
{
    assert(covered(visits, Seq::empty()) =~= visits);
    assert forall|j: int, k: int|
        0 <= j < answers.len() && 0 <= k < answers[j].3.len() implies placed(
        rows,
        g,
        visits,
        answers[j].0,
        answers[j].1,
        #[trigger] answers[j].3[k],
    ) by {
        assert(!add_pending(Seq::<TaskModel>::empty(), answers[j].0, answers[j].1, answers[j].3[k]));
    }
}

/// Linking two rows that follow a key keeps every edge sound.
proof fn lemma_link_sound(
    g1: Graph<PsqlTableRow, i32, Directed, u32>,
    g2: Graph<PsqlTableRow, i32, Directed, u32>,
    from: usize,
    to: usize,
)
    requires
        edges_sound(g1),
        from < graph_rows(g1).len(),
        to < graph_rows(g1).len(),
        follows_to(graph_rows(g1)[from as int].table, Direction::Referencing, graph_rows(g1)[to as int].table.id)
            || follows_to(graph_rows(g1)[to as int].table, Direction::Referenced, graph_rows(g1)[from as int].table.id),
        links(g1, g2, from, to),
    ensures
        edges_sound(g2),
        graph_rows(g2) == graph_rows(g1),
{
    assert forall|a: int, k: int|
        0 <= a < graph_rows(g2).len() && 0 <= k < graph_targets(g2, a).len() implies {
        let t = #[trigger] graph_targets(g2, a)[k];
        &&& t < graph_rows(g2).len()
        &&& follows_to(graph_rows(g2)[a].table, Direction::Referencing, graph_rows(g2)[t as int].table.id)
            || follows_to(graph_rows(g2)[t as int].table, Direction::Referenced, graph_rows(g2)[a].table.id)
    } by {
        let old_targets = graph_targets(g1, from as int);
        if a == from as int && !old_targets.contains(to) {
            assert(graph_targets(g2, a) == seq![to] + old_targets);
            if k > 0 {
                assert(graph_targets(g2, a)[k] == old_targets[k - 1]);
            } else {
                assert(graph_targets(g2, a)[k] == to);
            }
        } else {
            assert(graph_targets(g2, a) == graph_targets(g1, a));
        }
    }
}

/// A query made from an entry of a row's foreign keys is planned for it.
proof fn lemma_planned_entry(
    row: RowModel,
    direction: Direction,
    fks: Map<Seq<char>, ForeignKeyModel>,
    e: (Seq<char>, ForeignKeyModel),
    query: QueryModel,
    tables: Map<TableIdModel, TableModel>,
)
    requires
        fks.contains_key(e.0),
        fks[e.0] == e.1,
        tables.contains_key(e.1.foreign_table),
        direction == Direction::Referencing ==> row.table.referencing_fk_by_constraint_name == fks
            && query == (tables[e.1.foreign_table], tables[e.1.foreign_table].primary_column.0, e.1.column),
        direction == Direction::Referenced ==> row.table.referenced_fk_by_constraint_name == fks
            && query == (tables[e.1.foreign_table], e.1.column.0, row.table.primary_column),
    ensures
        planned(row, direction, query, tables),
{
    match direction {
        Direction::Referencing => {
            assert(row.table.referencing_fk_by_constraint_name[e.0] == e.1);
        },
        Direction::Referenced => {
            assert(row.table.referenced_fk_by_constraint_name[e.0] == e.1);
        },
    }
}

} // verus!
