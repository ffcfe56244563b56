//! The database that keeps the registry: its tables, and how older ones are brought up to date.

use crate::dialogue::{Request, RequestView, Run, Session, Talk};
use crate::error::Error;
use crate::path::FsPath;
use crate::registry::Registry;
use vstd::prelude::*;
use vstd::string::*;

verus! {

/// Sets the database up. Tables that exist already are left as they are.
pub const SCHEMA: &'static str = "PRAGMA busy_timeout = 2000;
PRAGMA journal_mode = WAL;
PRAGMA foreign_keys = ON;
CREATE TABLE IF NOT EXISTS rift (
  id TEXT PRIMARY KEY,
  parent_id TEXT REFERENCES rift(id) ON DELETE CASCADE,
  path TEXT NOT NULL UNIQUE,
  created_at INTEGER NOT NULL,
  git_storage_mode TEXT NOT NULL DEFAULT 'inline',
  shared_git_dir TEXT,
  git_worktree_dir TEXT
);
CREATE INDEX IF NOT EXISTS rift_parent_id_idx ON rift(parent_id);
CREATE TABLE IF NOT EXISTS trash (
  id TEXT PRIMARY KEY,
  path TEXT NOT NULL UNIQUE,
  removed_at INTEGER NOT NULL,
  shared_git_dir TEXT,
  git_worktree_dir TEXT
);";

/// Reads the workspaces, the oldest first.
pub const SELECT_RIFTS: &'static str = "SELECT id, parent_id, path, created_at, git_storage_mode, shared_git_dir, git_worktree_dir FROM rift ORDER BY rowid";

/// Reads the trash, the oldest first.
pub const SELECT_TRASH: &'static str = "SELECT id, path, removed_at, shared_git_dir, git_worktree_dir FROM trash ORDER BY rowid";

/// Writes one workspace.
pub const INSERT_RIFT: &'static str = "INSERT INTO rift (id, parent_id, path, created_at, git_storage_mode, shared_git_dir, git_worktree_dir) VALUES (?1, ?2, ?3, ?4, ?5, ?6, ?7)";

/// Writes one row of the trash.
pub const INSERT_TRASH: &'static str = "INSERT INTO trash (id, path, removed_at, shared_git_dir, git_worktree_dir) VALUES (?1, ?2, ?3, ?4, ?5)";

/// Removes one workspace, by its id.
pub const DELETE_RIFT: &'static str = "DELETE FROM rift WHERE id = ?1";

/// Removes one row of the trash, by its id.
pub const DELETE_TRASH: &'static str = "DELETE FROM trash WHERE id = ?1";

/// A column that came later than its table.
pub struct Column {
    pub table: String,
    pub name: String,
    pub statement: String,
}

pub struct ColumnView {
    pub table: Seq<char>,
    pub name: Seq<char>,
    pub statement: Seq<char>,
}

impl DeepView for Column {
    type V = ColumnView;

    open spec fn deep_view(&self) -> ColumnView {
        ColumnView { table: self.table@, name: self.name@, statement: self.statement@ }
    }
}

/// The columns that came later than their tables, in the order in which they are added.
pub open spec fn later_columns() -> Seq<ColumnView> {
    seq![
        ColumnView {
            table: "rift"@,
            name: "git_storage_mode"@,
            statement: "ALTER TABLE rift ADD COLUMN git_storage_mode TEXT NOT NULL DEFAULT 'inline'"@,
        },
        ColumnView {
            table: "rift"@,
            name: "shared_git_dir"@,
            statement: "ALTER TABLE rift ADD COLUMN shared_git_dir TEXT"@,
        },
        ColumnView {
            table: "rift"@,
            name: "git_worktree_dir"@,
            statement: "ALTER TABLE rift ADD COLUMN git_worktree_dir TEXT"@,
        },
        ColumnView {
            table: "trash"@,
            name: "shared_git_dir"@,
            statement: "ALTER TABLE trash ADD COLUMN shared_git_dir TEXT"@,
        },
        ColumnView {
            table: "trash"@,
            name: "git_worktree_dir"@,
            statement: "ALTER TABLE trash ADD COLUMN git_worktree_dir TEXT"@,
        },
    ]
}

fn column(table: &str, name: &str, statement: &str) -> (column: Column)
    ensures
        column.deep_view() == (ColumnView {
            table: table@,
            name: name@,
            statement: statement@,
        }),
{
    Column { table: table.to_owned(), name: name.to_owned(), statement: statement.to_owned() }
}

fn columns_added_later() -> (columns: Vec<Column>)
    ensures
        columns.deep_view() == later_columns(),
{
    let columns = vec![
        column(
            "rift",
            "git_storage_mode",
            "ALTER TABLE rift ADD COLUMN git_storage_mode TEXT NOT NULL DEFAULT 'inline'",
        ),
        column("rift", "shared_git_dir", "ALTER TABLE rift ADD COLUMN shared_git_dir TEXT"),
        column("rift", "git_worktree_dir", "ALTER TABLE rift ADD COLUMN git_worktree_dir TEXT"),
        column("trash", "shared_git_dir", "ALTER TABLE trash ADD COLUMN shared_git_dir TEXT"),
        column("trash", "git_worktree_dir", "ALTER TABLE trash ADD COLUMN git_worktree_dir TEXT"),
    ];
    assert(columns.deep_view() =~= later_columns());
    columns
}

/// Adds a column where its table does not have it.
pub open spec fn ensure_table_column_run(
    table: Seq<char>,
    column: Seq<char>,
    statement: Seq<char>,
    talk: Talk,
) -> Run<()> {
    talk.ask_names(RequestView::TableColumns(table)).and_then(
        |names: Seq<Seq<char>>, t: Talk|
            if names.contains(column) {
                t.ready(Ok(()))
            } else {
                t.perform(RequestView::Execute(statement))
            },
    )
}

fn contains_name(names: &Vec<String>, wanted: &str) -> (found: bool)
    ensures
        found == names.deep_view().contains(wanted@),
{
    let goal = wanted.to_owned();
    let mut i: usize = 0;
    while i < names.len()
        invariant
            i <= names@.len(),
            goal@ == wanted@,
            forall|k: int| 0 <= k < i ==> #[trigger] names.deep_view()[k] != wanted@,
        decreases names@.len() - i,
    {
        assert(names.deep_view()[i as int] == names@[i as int]@);
        if names[i] == goal {
            return true;
        }
        i += 1;
    }
    false
}

pub fn ensure_table_column(
    table: &str,
    column: &str,
    statement: &str,
    session: &mut Session,
) -> (result: Option<Result<(), Error>>)
    ensures
        final(session)@.ended(result) == ensure_table_column_run(
            table@,
            column@,
            statement@,
            old(session)@,
        ),
{
    let names = match session.ask_names(Request::TableColumns(table.to_owned()))? {
        Ok(names) => names,
        Err(error) => return Some(Err(error)),
    };
    if contains_name(&names, column) {
        return Some(Ok(()));
    }
    session.perform(Request::Execute(statement.to_owned()))
}

/// Adds a column to the table of workspaces where it is missing.
pub fn ensure_column(column: &str, statement: &str, session: &mut Session) -> (result: Option<
    Result<(), Error>,
>)
    ensures
        final(session)@.ended(result) == ensure_table_column_run(
            "rift"@,
            column@,
            statement@,
            old(session)@,
        ),
{
    ensure_table_column("rift", column, statement, session)
}

/// Adds those of the columns that are missing, up to the first failure.
pub open spec fn ensure_columns_run(columns: Seq<ColumnView>, talk: Talk) -> Run<()>
    decreases columns.len(),
{
    if columns.len() == 0 {
        talk.ready(Ok(()))
    } else {
        let first = ensure_table_column_run(
            columns[0].table,
            columns[0].name,
            columns[0].statement,
            talk,
        );
        match first.out {
            Some(Ok(_)) => ensure_columns_run(columns.drop_first(), first.talk),
            _ => first,
        }
    }
}

/// Brings the tables of an older database up to date.
pub fn migrate(session: &mut Session) -> (result: Option<Result<(), Error>>)
    ensures
        final(session)@.ended(result) == ensure_columns_run(later_columns(), old(session)@),
{
    let columns = columns_added_later();
    let ghost wanted = later_columns();
    let mut i: usize = 0;
    assert(wanted.skip(0) =~= wanted);
    while i < columns.len()
        invariant
            i <= columns@.len(),
            columns.deep_view() == wanted,
            wanted == later_columns(),
            ensure_columns_run(wanted, old(session)@) == ensure_columns_run(
                wanted.skip(i as int),
                session@,
            ),
        decreases columns@.len() - i,
    {
        proof {
            assert(wanted.skip(i as int)[0] == columns@[i as int].deep_view());
            assert(wanted.skip(i as int).drop_first() =~= wanted.skip(i + 1));
        }
        if let Err(error) = ensure_table_column(
            columns[i].table.as_str(),
            columns[i].name.as_str(),
            columns[i].statement.as_str(),
            session,
        )? {
            return Some(Err(error));
        }
        i += 1;
    }
    Some(Ok(()))
}

/// Opens the database and makes its tables those of this version.
pub open spec fn open_run(path: Seq<u8>, talk: Talk) -> Run<()> {
    talk.perform(RequestView::OpenDatabase(path)).and_then(
        |opened: (), t: Talk|
            t.perform(RequestView::ExecuteBatch(SCHEMA@)).and_then(
                |made: (), t: Talk| ensure_columns_run(later_columns(), t),
            ),
    )
}

impl Registry {
    /// Opens the database of the registry.
    pub fn open(path: &FsPath, session: &mut Session) -> (result: Option<Result<(), Error>>)
        ensures
            final(session)@.ended(result) == open_run(path@, old(session)@),
    {
        if let Err(error) = session.perform(Request::OpenDatabase(path.clone()))? {
            return Some(Err(error));
        }
        if let Err(error) = session.perform(Request::ExecuteBatch(SCHEMA.to_owned()))? {
            return Some(Err(error));
        }
        migrate(session)
    }
}

} // verus!
