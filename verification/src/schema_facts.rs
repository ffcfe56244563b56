//! What holds of bringing the tables of an older database up to date.

use crate::conversations as say;
use crate::conversations::Exchange;
use crate::dialogue::{ReplyView, RequestView, Talk};
use crate::error::ErrorView;
use crate::schema::ColumnView;
use vstd::prelude::*;

verus! {

/// A column, by its table and its name.
pub open spec fn place_of(column: ColumnView) -> (Seq<char>, Seq<char>) {
    (column.table, column.name)
}

/// Whether the answers are those of a database that has just the columns `present` among those
/// looked for, and adds a column when it is told to.
pub open spec fn truthful(
    columns: Seq<ColumnView>,
    present: Set<(Seq<char>, Seq<char>)>,
    answers: Seq<ReplyView>,
) -> bool
    decreases columns.len(),
{
    if columns.len() == 0 {
        true
    } else {
        let here = place_of(columns[0]);
        &&& answers.len() > 0
        &&& answers[0] matches ReplyView::Names(names) && (names.contains(columns[0].name)
            <==> present.contains(here))
        &&& if present.contains(here) {
            truthful(columns.drop_first(), present, answers.drop_first())
        } else {
            &&& answers.len() > 1
            &&& answers[1] == ReplyView::Done
            &&& truthful(
                columns.drop_first(),
                present.insert(here),
                answers.drop_first().drop_first(),
            )
        }
    }
}

/// What it takes to bring such a database up to date: a look at the table of every column, and
/// the statement of every column that is missing.
pub open spec fn upgrade(
    columns: Seq<ColumnView>,
    present: Set<(Seq<char>, Seq<char>)>,
) -> Seq<RequestView>
    decreases columns.len(),
{
    if columns.len() == 0 {
        Seq::empty()
    } else {
        let here = place_of(columns[0]);
        let look = seq![RequestView::TableColumns(columns[0].table)];
        if present.contains(here) {
            look + upgrade(columns.drop_first(), present)
        } else {
            look + seq![RequestView::Execute(columns[0].statement)] + upgrade(
                columns.drop_first(),
                present.insert(here),
            )
        }
    }
}

/// A database that answers truthfully is brought up to date: the missing columns are added, in
/// order, and no others.
pub proof fn missing_columns_are_added(
    columns: Seq<ColumnView>,
    present: Set<(Seq<char>, Seq<char>)>,
    talk: Talk,
)
    requires
        truthful(columns, present, talk.rest),
    ensures
        ({
            let run = crate::schema::ensure_columns_run(columns, talk);
            &&& run.out == Some(Ok::<(), ErrorView>(()))
            &&& run.talk.asked == talk.asked + upgrade(columns, present)
        }),
    decreases columns.len(),
{
    let run = crate::schema::ensure_columns_run(columns, talk);
    if columns.len() > 0 {
        let here = place_of(columns[0]);
        let first = crate::schema::ensure_table_column_run(
            columns[0].table,
            columns[0].name,
            columns[0].statement,
            talk,
        );
        if present.contains(here) {
            missing_columns_are_added(columns.drop_first(), present, first.talk);
        } else {
            missing_columns_are_added(columns.drop_first(), present.insert(here), first.talk);
        }
    }
    assert(run.talk.asked =~= talk.asked + upgrade(columns, present));
}

/// A database that has all the columns is only looked at.
pub proof fn tables_up_to_date_are_left_alone(
    columns: Seq<ColumnView>,
    present: Set<(Seq<char>, Seq<char>)>,
)
    requires
        forall|k: int| 0 <= k < columns.len() ==> present.contains(place_of(#[trigger] columns[k])),
    ensures
        upgrade(columns, present).len() == columns.len(),
        forall|k: int|
            0 <= k < columns.len() ==> #[trigger] upgrade(columns, present)[k]
                == RequestView::TableColumns(columns[k].table),
    decreases columns.len(),
{
    if columns.len() > 0 {
        assert(present.contains(place_of(columns[0])));
        let rest = columns.drop_first();
        assert forall|k: int| 0 <= k < rest.len() implies present.contains(
            place_of(#[trigger] rest[k]),
        ) by {
            assert(rest[k] == columns[k + 1]);
        }
        tables_up_to_date_are_left_alone(rest, present);
        assert forall|k: int| 0 <= k < columns.len() implies #[trigger] upgrade(columns, present)[k]
            == RequestView::TableColumns(columns[k].table) by {
            if k > 0 {
                assert(upgrade(columns, present)[k] == upgrade(rest, present)[k - 1]);
                assert(rest[k - 1] == columns[k]);
            }
        }
    }
}

/// What a row holds in a column.
pub enum Value {
    Null,
    Number(int),
    Text(Seq<char>),
}

/// A table: the names of its columns, and its rows with a value for each of them.
pub struct Table {
    pub columns: Seq<Seq<char>>,
    pub rows: Seq<Map<Seq<char>, Value>>,
}

/// The tables of a database, by their names.
pub type Database = Map<Seq<char>, Table>;

/// Whether every row has a value for every column of its table, and no others.
pub open spec fn sound(database: Database) -> bool {
    forall|table: Seq<char>, r: int|
        database.contains_key(table) && 0 <= r < database[table].rows.len() ==> (
        #[trigger] database[table].rows[r]).dom() == database[table].columns.to_set()
}

pub open spec fn has_column(database: Database, column: ColumnView) -> bool {
    database[column.table].columns.contains(column.name)
}

/// What the rows that are there already read in a column that is added: workspaces are inline
/// until something else is said, and all other columns are empty.
pub open spec fn default_of(name: Seq<char>) -> Value {
    if name == "git_storage_mode"@ {
        Value::Text("inline"@)
    } else {
        Value::Null
    }
}

/// A table with a column more.
pub open spec fn widened(table: Table, name: Seq<char>) -> Table {
    Table {
        columns: table.columns.push(name),
        rows: table.rows.map_values(
            |row: Map<Seq<char>, Value>| row.insert(name, default_of(name)),
        ),
    }
}

pub open spec fn with_column(database: Database, column: ColumnView) -> Database {
    database.insert(column.table, widened(database[column.table], column.name))
}

/// What a statement does, if it is the one that adds one of the columns.
pub open spec fn after_statement(
    database: Database,
    columns: Seq<ColumnView>,
    statement: Seq<char>,
) -> Database
    decreases columns.len(),
{
    if columns.len() == 0 {
        database
    } else if columns[0].statement == statement {
        with_column(database, columns[0])
    } else {
        after_statement(database, columns.drop_first(), statement)
    }
}

/// What requests that succeed make of a database, one after the other.
pub open spec fn after_requests(database: Database, requests: Seq<RequestView>) -> Database
    decreases requests.len(),
{
    if requests.len() == 0 {
        database
    } else {
        let next = match requests[0] {
            RequestView::Execute(statement) => after_statement(
                database,
                crate::schema::later_columns(),
                statement,
            ),
            _ => database,
        };
        after_requests(next, requests.drop_first())
    }
}

/// The database with those of the columns added that it does not have.
pub open spec fn upgraded(database: Database, columns: Seq<ColumnView>) -> Database
    decreases columns.len(),
{
    if columns.len() == 0 {
        database
    } else if has_column(database, columns[0]) {
        upgraded(database, columns.drop_first())
    } else {
        upgraded(with_column(database, columns[0]), columns.drop_first())
    }
}

/// Whether the answers are those of the database: the columns that its tables have, and that a
/// column that was missing has been added.
pub open spec fn served(
    database: Database,
    columns: Seq<ColumnView>,
    answers: Seq<ReplyView>,
) -> bool
    decreases columns.len(),
{
    if columns.len() == 0 {
        true
    } else {
        &&& answers.len() > 0
        &&& answers[0] == ReplyView::Names(database[columns[0].table].columns)
        &&& if has_column(database, columns[0]) {
            served(database, columns.drop_first(), answers.drop_first())
        } else {
            &&& answers.len() > 1
            &&& answers[1] == ReplyView::Done
            &&& served(
                with_column(database, columns[0]),
                columns.drop_first(),
                answers.drop_first().drop_first(),
            )
        }
    }
}

/// Whether each of the columns is added by its own statement.
pub open spec fn known(columns: Seq<ColumnView>) -> bool {
    forall|k: int, database: Database|
        0 <= k < columns.len() ==> #[trigger] after_statement(
            database,
            crate::schema::later_columns(),
            columns[k].statement,
        ) == with_column(database, columns[k])
}

proof fn lemma_statements()
    ensures
        known(crate::schema::later_columns()),
{
    reveal_strlit(
        "ALTER TABLE rift ADD COLUMN git_storage_mode TEXT NOT NULL DEFAULT 'inline'",
    );
    reveal_strlit("ALTER TABLE rift ADD COLUMN shared_git_dir TEXT");
    reveal_strlit("ALTER TABLE rift ADD COLUMN git_worktree_dir TEXT");
    reveal_strlit("ALTER TABLE trash ADD COLUMN shared_git_dir TEXT");
    reveal_strlit("ALTER TABLE trash ADD COLUMN git_worktree_dir TEXT");
    let columns = crate::schema::later_columns();
    assert forall|k: int, database: Database| 0 <= k < columns.len() implies #[trigger]
        after_statement(database, columns, columns[k].statement) == with_column(
        database,
        columns[k],
    ) by {
        lemma_statement(database, columns, k);
    }
}

proof fn lemma_statement(database: Database, columns: Seq<ColumnView>, k: int)
    requires
        0 <= k < columns.len(),
        forall|i: int, j: int|
            0 <= i < j < columns.len() ==> (#[trigger] columns[i]).statement.len() != (
            #[trigger] columns[j]).statement.len(),
    ensures
        after_statement(database, columns, columns[k].statement) == with_column(
            database,
            columns[k],
        ),
    decreases columns.len(),
{
    if k > 0 {
        assert(columns[0].statement.len() != columns[k].statement.len());
        let rest = columns.drop_first();
        assert(rest[k - 1] == columns[k]);
        assert forall|i: int, j: int| 0 <= i < j < rest.len() implies (
        #[trigger] rest[i]).statement.len() != (#[trigger] rest[j]).statement.len() by {
            assert(rest[i] == columns[i + 1] && rest[j] == columns[j + 1]);
        }
        lemma_statement(database, rest, k - 1);
    }
}

/// The requests that bring a database up to date do bring it up to date.
proof fn lemma_upgrade(database: Database, columns: Seq<ColumnView>, talk: Talk)
    requires
        known(columns),
        served(database, columns, talk.rest),
    ensures
        ({
            let run = crate::schema::ensure_columns_run(columns, talk);
            let requests = run.talk.asked.skip(talk.asked.len() as int);
            &&& run.out == Some(Ok::<(), ErrorView>(()))
            &&& run.talk.asked == talk.asked + requests
            &&& after_requests(database, requests) == upgraded(database, columns)
        }),
    decreases columns.len(),
{
    let run = crate::schema::ensure_columns_run(columns, talk);
    let requests = run.talk.asked.skip(talk.asked.len() as int);
    if columns.len() == 0 {
        assert(requests =~= Seq::empty());
        assert(run.talk.asked =~= talk.asked + requests);
    } else {
        let rest = columns.drop_first();
        assert forall|k: int, d: Database| 0 <= k < rest.len() implies #[trigger] after_statement(
            d,
            crate::schema::later_columns(),
            rest[k].statement,
        ) == with_column(d, rest[k]) by {
            assert(rest[k] == columns[k + 1]);
        }
        let first = crate::schema::ensure_table_column_run(
            columns[0].table,
            columns[0].name,
            columns[0].statement,
            talk,
        );
        let look = RequestView::TableColumns(columns[0].table);
        let next = if has_column(database, columns[0]) {
            database
        } else {
            with_column(database, columns[0])
        };
        lemma_upgrade(next, rest, first.talk);
        let others = run.talk.asked.skip(first.talk.asked.len() as int);
        if has_column(database, columns[0]) {
            assert(requests =~= seq![look] + others);
            assert(requests.drop_first() =~= others);
        } else {
            let add = RequestView::Execute(columns[0].statement);
            assert(requests =~= seq![look, add] + others);
            assert(requests.drop_first() =~= seq![add] + others);
            assert(requests.drop_first().drop_first() =~= others);
            assert(after_statement(
                database,
                crate::schema::later_columns(),
                columns[0].statement,
            ) == next);
            reveal_with_fuel(after_requests, 3);
        }
        assert(run.talk.asked =~= talk.asked + requests);
    }
}

proof fn lemma_widened(database: Database, column: ColumnView)
    requires
        sound(database),
        database.contains_key(column.table),
    ensures
        sound(with_column(database, column)),
{
    let next = with_column(database, column);
    assert forall|table: Seq<char>, r: int|
        next.contains_key(table) && 0 <= r < next[table].rows.len() implies (
    #[trigger] next[table].rows[r]).dom() == next[table].columns.to_set() by {
        assert(database[table].rows[r].dom() == database[table].columns.to_set());
        if table == column.table {
            let old_columns = database[table].columns;
            assert(next[table].rows[r].dom() =~= old_columns.push(column.name).to_set()) by {
                assert forall|name: Seq<char>| #[trigger]
                    old_columns.push(column.name).contains(name) <==> old_columns.contains(name)
                        || name == column.name by {
                    let wide = old_columns.push(column.name);
                    if old_columns.contains(name) {
                        let k = choose|k: int| 0 <= k < old_columns.len() && old_columns[k] == name;
                        assert(wide[k] == name);
                    }
                    assert(wide[wide.len() - 1] == column.name);
                }
            }
        }
    }
}

/// What an upgrade makes of a single value: one that is there stays, and one that is missing
/// becomes the default of its column, where that is one of those added.
proof fn lemma_value(
    database: Database,
    columns: Seq<ColumnView>,
    table: Seq<char>,
    r: int,
    name: Seq<char>,
)
    requires
        sound(database),
        forall|k: int|
            0 <= k < columns.len() ==> database.contains_key((#[trigger] columns[k]).table),
        database.contains_key(table),
    ensures
        ({
            let later = upgraded(database, columns);
            let wanted = exists|k: int|
                0 <= k < columns.len() && (#[trigger] columns[k]).table == table
                    && columns[k].name == name;
            &&& sound(later)
            &&& later.dom() == database.dom()
            &&& later[table].rows.len() == database[table].rows.len()
            &&& database[table].columns.is_prefix_of(later[table].columns)
            &&& wanted ==> later[table].columns.contains(name)
            &&& 0 <= r < database[table].rows.len() ==> {
                let before = database[table].rows[r];
                let after = later[table].rows[r];
                &&& before.contains_key(name) ==> after.contains_key(name) && after[name]
                    == before[name]
                &&& wanted && !before.contains_key(name) ==> after.contains_key(name)
                    && after[name] == default_of(name)
            }
        }),
    decreases columns.len(),
{
    let later = upgraded(database, columns);
    let old_columns = database[table].columns;
    if columns.len() == 0 {
        assert(old_columns.subrange(0, old_columns.len() as int) =~= old_columns);
    } else {
        let column = columns[0];
        let rest = columns.drop_first();
        let next = if has_column(database, column) {
            database
        } else {
            with_column(database, column)
        };
        assert(database.contains_key(columns[0].table));
        lemma_widened(database, column);
        assert(next.dom() =~= database.dom());
        assert forall|k: int| 0 <= k < rest.len() implies next.contains_key(
            (#[trigger] rest[k]).table,
        ) by {
            assert(rest[k] == columns[k + 1]);
        }
        lemma_value(next, rest, table, r, name);
        let mid = next[table].columns;
        assert(mid.subrange(0, old_columns.len() as int) =~= old_columns);
        let last = later[table].columns;
        assert(last.subrange(0, old_columns.len() as int) =~= old_columns) by {
            assert(last.subrange(0, mid.len() as int) == mid);
            assert forall|i: int| 0 <= i < old_columns.len() implies last[i] == old_columns[i] by {
                assert(last.subrange(0, mid.len() as int)[i] == mid[i]);
            }
        }
        if 0 <= r < database[table].rows.len() {
            assert(database[table].rows[r].dom() == database[table].columns.to_set());
        }
        if exists|k: int|
            0 <= k < columns.len() && (#[trigger] columns[k]).table == table && columns[k].name
                == name {
            let k = choose|k: int|
                0 <= k < columns.len() && (#[trigger] columns[k]).table == table
                    && columns[k].name == name;
            if k > 0 {
                assert(rest[k - 1] == columns[k]);
            } else {
                assert(next[table].columns.contains(name)) by {
                    if !has_column(database, column) {
                        assert(mid[mid.len() - 1] == name);
                    }
                }
                let m = choose|m: int| 0 <= m < mid.len() && mid[m] == name;
                assert(last.subrange(0, mid.len() as int)[m] == last[m]);
                assert(last[m] == name);
            }
        }
    }
}

/// Whether a database is another one brought up to date: it has the same tables and rows, every
/// value that was there is still there, it has all the columns, and where one was missing, the
/// rows read its default.
pub open spec fn is_upgrade_of(later: Database, database: Database) -> bool {
    let columns = crate::schema::later_columns();
    &&& sound(later)
    &&& later.dom() == database.dom()
    &&& forall|table: Seq<char>| #[trigger]
        database.contains_key(table) ==> later[table].rows.len() == database[table].rows.len()
            && database[table].columns.is_prefix_of(later[table].columns)
    &&& forall|table: Seq<char>, r: int, name: Seq<char>|
        database.contains_key(table) && 0 <= r < database[table].rows.len()
            && #[trigger] database[table].rows[r].contains_key(name)
            ==> later[table].rows[r].contains_key(name) && later[table].rows[r][name]
            == database[table].rows[r][name]
    &&& forall|k: int| 0 <= k < columns.len() ==> has_column(later, #[trigger] columns[k])
    &&& forall|k: int, r: int|
        0 <= k < columns.len() && 0 <= r < database[columns[k].table].rows.len() && !has_column(
            database,
            columns[k],
        ) ==> #[trigger] later[columns[k].table].rows[r][columns[k].name] == default_of(
            columns[k].name,
        )
}

/// Whether a database has both tables of the registry.
pub open spec fn has_both_tables(database: Database) -> bool {
    database.contains_key("rift"@) && database.contains_key("trash"@)
}

/// Bringing a database up to date keeps every row and every value, adds the columns that are
/// missing, and fills them with their defaults.
pub proof fn migration_keeps_every_row(database: Database, talk: Talk)
    requires
        sound(database),
        has_both_tables(database),
        served(database, crate::schema::later_columns(), talk.rest),
    ensures
        ({
            let run = crate::schema::ensure_columns_run(crate::schema::later_columns(), talk);
            let requests = run.talk.asked.skip(talk.asked.len() as int);
            &&& run.out == Some(Ok::<(), ErrorView>(()))
            &&& run.talk.asked == talk.asked + requests
            &&& after_requests(database, requests) == upgraded(
                database,
                crate::schema::later_columns(),
            )
            &&& is_upgrade_of(after_requests(database, requests), database)
        }),
{
    let columns = crate::schema::later_columns();
    lemma_statements();
    lemma_upgrade(database, columns, talk);
    let later = upgraded(database, columns);
    assert forall|k: int| 0 <= k < columns.len() implies database.contains_key(
        (#[trigger] columns[k]).table,
    ) by {}
    lemma_value(database, columns, "rift"@, 0, ""@);
    assert forall|table: Seq<char>| #[trigger]
        database.contains_key(table) implies later[table].rows.len()
        == database[table].rows.len() && database[table].columns.is_prefix_of(
        later[table].columns,
    ) by {
        lemma_value(database, columns, table, 0, ""@);
    }
    assert forall|table: Seq<char>, r: int, name: Seq<char>|
        database.contains_key(table) && 0 <= r < database[table].rows.len()
            && #[trigger] database[table].rows[r].contains_key(
            name,
        ) implies later[table].rows[r].contains_key(name) && later[table].rows[r][name]
        == database[table].rows[r][name] by {
        lemma_value(database, columns, table, r, name);
    }
    assert forall|k: int| 0 <= k < columns.len() implies has_column(
        later,
        #[trigger] columns[k],
    ) by {
        lemma_value(database, columns, columns[k].table, 0, columns[k].name);
    }
    assert forall|k: int, r: int|
        0 <= k < columns.len() && 0 <= r < database[columns[k].table].rows.len() && !has_column(
            database,
            columns[k],
        ) implies #[trigger] later[columns[k].table].rows[r][columns[k].name] == default_of(
        columns[k].name,
    ) by {
        let table = columns[k].table;
        lemma_value(database, columns, table, r, columns[k].name);
        assert(database[table].rows[r].dom() == database[table].columns.to_set());
    }
}

proof fn lemma_nothing_to_upgrade(database: Database, columns: Seq<ColumnView>)
    requires
        forall|k: int| 0 <= k < columns.len() ==> has_column(database, #[trigger] columns[k]),
    ensures
        upgraded(database, columns) == database,
    decreases columns.len(),
{
    if columns.len() > 0 {
        assert(has_column(database, columns[0]));
        let rest = columns.drop_first();
        assert forall|k: int| 0 <= k < rest.len() implies has_column(
            database,
            #[trigger] rest[k],
        ) by {
            assert(rest[k] == columns[k + 1]);
        }
        lemma_nothing_to_upgrade(database, rest);
    }
}

/// Bringing a database up to date a second time succeeds and changes nothing.
pub proof fn second_migration_changes_nothing(database: Database, talk: Talk, later: Talk)
    requires
        sound(database),
        has_both_tables(database),
        served(database, crate::schema::later_columns(), talk.rest),
        ({
            let first = crate::schema::ensure_columns_run(crate::schema::later_columns(), talk);
            let after = after_requests(
                database,
                first.talk.asked.skip(talk.asked.len() as int),
            );
            served(after, crate::schema::later_columns(), later.rest)
        }),
    ensures
        ({
            let first = crate::schema::ensure_columns_run(crate::schema::later_columns(), talk);
            let after = after_requests(
                database,
                first.talk.asked.skip(talk.asked.len() as int),
            );
            let second = crate::schema::ensure_columns_run(crate::schema::later_columns(), later);
            let requests = second.talk.asked.skip(later.asked.len() as int);
            &&& second.out == Some(Ok::<(), ErrorView>(()))
            &&& after_requests(after, requests) == after
        }),
{
    let columns = crate::schema::later_columns();
    migration_keeps_every_row(database, talk);
    let first = crate::schema::ensure_columns_run(columns, talk);
    let after = after_requests(database, first.talk.asked.skip(talk.asked.len() as int));
    lemma_statements();
    lemma_upgrade(after, columns, later);
    lemma_nothing_to_upgrade(after, columns);
}


/// A look at the columns of a table, and what follows where one is missing.
pub open spec fn look_and_add(
    table: Seq<char>,
    name: Seq<char>,
    statement: Seq<char>,
    names: Seq<Seq<char>>,
) -> Seq<Exchange> {
    if names.contains(name) {
        seq![(RequestView::TableColumns(table), ReplyView::Names(names))]
    } else {
        seq![
            (RequestView::TableColumns(table), ReplyView::Names(names)),
            (RequestView::Execute(statement), ReplyView::Done),
        ]
    }
}

/// A column is looked for in its table, and added there if it is missing.
pub proof fn column_is_looked_for_and_added(
    table: Seq<char>,
    name: Seq<char>,
    statement: Seq<char>,
    names: Seq<Seq<char>>,
)
    ensures
        say::tells(
            |talk: Talk|
                crate::schema::ensure_table_column_run(table, name, statement, talk),
            look_and_add(table, name, statement, names),
            Ok::<(), ErrorView>(()),
        ),
{
    let operation = |talk: Talk|
        crate::schema::ensure_table_column_run(table, name, statement, talk);
    let script = look_and_add(table, name, statement, names);
    let look = RequestView::TableColumns(table);
    let change = RequestView::Execute(statement);
    assert forall|talk: Talk| #[trigger] say::has_answers(talk, script) implies operation(talk)
        == say::spoken(talk, script).ready(Ok::<(), ErrorView>(())) by {
        if names.contains(name) {
            say::lemma_one(talk, look, ReplyView::Names(names));
        } else {
            let rest = seq![(change, ReplyView::Done)];
            assert(script =~= seq![(look, ReplyView::Names(names))] + rest);
            say::lemma_begin(talk, look, ReplyView::Names(names), rest);
            say::lemma_one(talk.after(look), change, ReplyView::Done);
        }
    }
}

/// What brings the tables of an older database up to date, given the columns that it names at each
/// look.
pub open spec fn upgrading(names: Seq<Seq<Seq<char>>>) -> Seq<Exchange> {
    look_and_add(
        "rift"@,
        "git_storage_mode"@,
        "ALTER TABLE rift ADD COLUMN git_storage_mode TEXT NOT NULL DEFAULT 'inline'"@,
        names[0],
    ) + (look_and_add(
        "rift"@,
        "shared_git_dir"@,
        "ALTER TABLE rift ADD COLUMN shared_git_dir TEXT"@,
        names[1],
    ) + (look_and_add(
        "rift"@,
        "git_worktree_dir"@,
        "ALTER TABLE rift ADD COLUMN git_worktree_dir TEXT"@,
        names[2],
    ) + (look_and_add(
        "trash"@,
        "shared_git_dir"@,
        "ALTER TABLE trash ADD COLUMN shared_git_dir TEXT"@,
        names[3],
    ) + look_and_add(
        "trash"@,
        "git_worktree_dir"@,
        "ALTER TABLE trash ADD COLUMN git_worktree_dir TEXT"@,
        names[4],
    ))))
}

proof fn lemma_one_column(
    columns: Seq<ColumnView>,
    names: Seq<Seq<char>>,
    rest: Seq<Exchange>,
    talk: Talk,
)
    requires
        columns.len() > 0,
        say::has_answers(
            talk,
            look_and_add(columns[0].table, columns[0].name, columns[0].statement, names) + rest,
        ),
    ensures
        ({
            let script = look_and_add(
                columns[0].table,
                columns[0].name,
                columns[0].statement,
                names,
            );
            let after = say::spoken(talk, script);
            &&& crate::schema::ensure_columns_run(columns, talk)
                == crate::schema::ensure_columns_run(columns.drop_first(), after)
            &&& say::has_answers(after, rest)
            &&& say::spoken(after, rest) == say::spoken(talk, script + rest)
        }),
{
    let column = columns[0];
    let script = look_and_add(column.table, column.name, column.statement, names);
    let operation = |talk: Talk|
        crate::schema::ensure_table_column_run(column.table, column.name, column.statement, talk);
    column_is_looked_for_and_added(column.table, column.name, column.statement, names);
    say::lemma_split(talk, script, rest);
    assert(say::has_answers(talk, script));
    assert(operation(talk) == say::spoken(talk, script).ready(Ok::<(), ErrorView>(())));
}

/// These are the columns that older databases lack, and the statements that add them.
pub proof fn later_columns_are_these(names: Seq<Seq<Seq<char>>>)
    requires
        names.len() == 5,
    ensures
        say::tells(
            |talk: Talk|
                crate::schema::ensure_columns_run(crate::schema::later_columns(), talk),
            upgrading(names),
            Ok::<(), ErrorView>(()),
        ),
{
    let operation = |talk: Talk|
        crate::schema::ensure_columns_run(crate::schema::later_columns(), talk);
    let script = upgrading(names);
    assert forall|talk: Talk| #[trigger] say::has_answers(talk, script) implies operation(talk)
        == say::spoken(talk, script).ready(Ok::<(), ErrorView>(())) by {
        let c0 = crate::schema::later_columns();
        let c1 = c0.drop_first();
        let c2 = c1.drop_first();
        let c3 = c2.drop_first();
        let c4 = c3.drop_first();
        let s1 = look_and_add(c1[0].table, c1[0].name, c1[0].statement, names[1]);
        let s2 = look_and_add(c2[0].table, c2[0].name, c2[0].statement, names[2]);
        let s3 = look_and_add(c3[0].table, c3[0].name, c3[0].statement, names[3]);
        let s4 = look_and_add(c4[0].table, c4[0].name, c4[0].statement, names[4]);
        let none = Seq::<Exchange>::empty();
        lemma_one_column(c0, names[0], s1 + (s2 + (s3 + s4)), talk);
        let t1 = say::spoken(
            talk,
            look_and_add(c0[0].table, c0[0].name, c0[0].statement, names[0]),
        );
        lemma_one_column(c1, names[1], s2 + (s3 + s4), t1);
        let t2 = say::spoken(t1, s1);
        lemma_one_column(c2, names[2], s3 + s4, t2);
        let t3 = say::spoken(t2, s2);
        lemma_one_column(c3, names[3], s4, t3);
        let t4 = say::spoken(t3, s3);
        assert(s4 + none =~= s4);
        lemma_one_column(c4, names[4], none, t4);
        assert(c4.drop_first() =~= Seq::empty());
    }
}

/// Opening the registry opens its database, sets it up with these statements, and then brings it up
/// to date. A database that cannot be opened or set up is not touched any further.
pub proof fn opening_sets_the_database_up(
    path: Seq<u8>,
    names: Seq<Seq<Seq<char>>>,
    message: Seq<char>,
)
    requires
        names.len() == 5,
    ensures
        ({
            let setup = RequestView::ExecuteBatch(
                "PRAGMA busy_timeout = 2000;
PRAGMA journal_mode = WAL;
PRAGMA foreign_keys = ON;
CREATE TABLE IF NOT EXISTS rift (
  id TEXT PRIMARY KEY,
  parent_id TEXT REFERENCES rift(id) ON DELETE CASCADE,
  path TEXT NOT NULL UNIQUE,
  created_at INTEGER NOT NULL,
  git_storage_mode TEXT NOT NULL DEFAULT 'inline',
  shared_git_dir TEXT,
  git_worktree_dir TEXT
);
CREATE INDEX IF NOT EXISTS rift_parent_id_idx ON rift(parent_id);
CREATE TABLE IF NOT EXISTS trash (
  id TEXT PRIMARY KEY,
  path TEXT NOT NULL UNIQUE,
  removed_at INTEGER NOT NULL,
  shared_git_dir TEXT,
  git_worktree_dir TEXT
);"@,
            );
            let opened = (RequestView::OpenDatabase(path), ReplyView::Done);
            let operation = |talk: Talk| crate::schema::open_run(path, talk);
            &&& say::tells(
                operation,
                seq![opened] + (seq![(setup, ReplyView::Done)] + upgrading(names)),
                Ok::<(), ErrorView>(()),
            )
            &&& say::tells(
                operation,
                seq![(RequestView::OpenDatabase(path), ReplyView::Rejected(message))],
                Err::<(), ErrorView>(ErrorView::Database(message)),
            )
            &&& say::tells(
                operation,
                seq![opened] + seq![(setup, ReplyView::Rejected(message))],
                Err::<(), ErrorView>(ErrorView::Database(message)),
            )
        }),
{
    let setup = RequestView::ExecuteBatch(crate::schema::SCHEMA@);
    let first = RequestView::OpenDatabase(path);
    let rejected = ReplyView::Rejected(message);
    let operation = |talk: Talk| crate::schema::open_run(path, talk);
    let migration = |talk: Talk|
        crate::schema::ensure_columns_run(crate::schema::later_columns(), talk);
    let error: Result<(), ErrorView> = Err(ErrorView::Database(message));
    later_columns_are_these(names);
    let rest = seq![(setup, ReplyView::Done)] + upgrading(names);
    let script = seq![(first, ReplyView::Done)] + rest;
    assert forall|talk: Talk| #[trigger] say::has_answers(talk, script) implies operation(talk)
        == say::spoken(talk, script).ready(Ok::<(), ErrorView>(())) by {
        say::lemma_begin(talk, first, ReplyView::Done, rest);
        let next = talk.after(first);
        say::lemma_begin(next, setup, ReplyView::Done, upgrading(names));
        assert(say::has_answers(next.after(setup), upgrading(names)));
        assert(migration(next.after(setup)) == say::spoken(
            next.after(setup),
            upgrading(names),
        ).ready(Ok::<(), ErrorView>(())));
    }
    let short = seq![(first, rejected)];
    assert forall|talk: Talk| #[trigger] say::has_answers(talk, short) implies operation(talk)
        == say::spoken(talk, short).ready(error) by {
        say::lemma_one(talk, first, rejected);
    }
    let second = seq![(setup, rejected)];
    let longer = seq![(first, ReplyView::Done)] + second;
    assert forall|talk: Talk| #[trigger] say::has_answers(talk, longer) implies operation(talk)
        == say::spoken(talk, longer).ready(error) by {
        say::lemma_begin(talk, first, ReplyView::Done, second);
        say::lemma_one(talk.after(first), setup, rejected);
    }
}

} // verus!
