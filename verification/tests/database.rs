use rift_core::dialogue::{Reply, Request, Session};
use rift_core::error::Error;
use rift_core::id::{GitStorageMode, RiftId};
use rift_core::path::FsPath;
use rift_core::registry::{
    Changes, MovedRecord, PathRecord, Registry, RiftRow, SubtreeScope, TrashRow,
};
use rift_core::schema::{
    ensure_column, migrate, DELETE_RIFT, DELETE_TRASH, INSERT_RIFT, INSERT_TRASH, SELECT_RIFTS,
    SELECT_TRASH,
};
use rusqlite::{params_from_iter, Connection};
use tempfile::TempDir;

fn id(value: &str) -> RiftId {
    RiftId::from_stored(value.to_owned())
}

fn columns(database: &Connection, table: &str) -> Vec<String> {
    let mut statement = database.prepare(&format!("PRAGMA table_info({table})")).unwrap();
    let names = statement.query_map([], |row| row.get::<_, String>(1)).unwrap();
    names.map(|name| name.unwrap()).collect()
}

/// Does for a database what a request asks for.
fn perform(database: &mut Option<Connection>, request: &Request) -> Reply {
    let outcome = match request {
        Request::OpenDatabase(path) => {
            Connection::open(path.to_text().unwrap()).map(|opened| *database = Some(opened))
        }
        Request::ExecuteBatch(text) => database.as_ref().unwrap().execute_batch(text),
        Request::Execute(text) => database.as_ref().unwrap().execute(text, []).map(|_| ()),
        Request::TableColumns(table) => {
            return Reply::Names(columns(database.as_ref().unwrap(), table));
        }
        _ => unreachable!(),
    };
    match outcome {
        Ok(()) => Reply::Done,
        Err(error) => Reply::Rejected(error.to_string()),
    }
}

fn drive(
    database: &mut Option<Connection>,
    operation: impl Fn(&mut Session) -> Option<Result<(), Error>>,
) -> (Result<(), Error>, usize) {
    let mut session = Session::new();
    loop {
        if let Some(result) = operation(&mut session) {
            return (result, session.request_count());
        }
        let reply = perform(database, session.last_request().unwrap());
        session.answer(reply);
    }
}

fn opened() -> (TempDir, Connection) {
    let temp = TempDir::new().unwrap();
    let path = FsPath::from_text(temp.path().to_str().unwrap()).join("registry.sqlite");
    let mut database = None;
    let (result, _) = drive(&mut database, |session| Registry::open(&path, session));
    result.unwrap();
    (temp, database.unwrap())
}

#[test]
fn uses_wal_and_busy_timeout() {
    let (_temp, database) = opened();
    let journal_mode: String = database
        .query_row("PRAGMA journal_mode", [], |row| row.get(0))
        .unwrap();
    let busy_timeout: i32 = database
        .query_row("PRAGMA busy_timeout", [], |row| row.get(0))
        .unwrap();

    assert_eq!(journal_mode, "wal");
    assert_eq!(busy_timeout, 2000);
}

#[test]
fn new_databases_have_all_columns() {
    let (_temp, database) = opened();
    assert_eq!(
        columns(&database, "rift"),
        vec![
            "id",
            "parent_id",
            "path",
            "created_at",
            "git_storage_mode",
            "shared_git_dir",
            "git_worktree_dir"
        ]
    );
    assert_eq!(
        columns(&database, "trash"),
        vec!["id", "path", "removed_at", "shared_git_dir", "git_worktree_dir"]
    );
}

#[test]
fn old_databases_are_brought_up_to_date_once() {
    let database = Connection::open_in_memory().unwrap();
    database
        .execute_batch(
            "CREATE TABLE rift (id TEXT PRIMARY KEY, parent_id TEXT, path TEXT NOT NULL UNIQUE,
               created_at INTEGER NOT NULL, shared_git_dir TEXT);
             CREATE TABLE trash (id TEXT PRIMARY KEY, path TEXT NOT NULL UNIQUE,
               removed_at INTEGER NOT NULL);
             INSERT INTO rift (id, path, created_at) VALUES ('old', '/old', 1);
             INSERT INTO rift (id, parent_id, path, created_at, shared_git_dir)
               VALUES ('copy', 'old', '/copy', 2, '/store/git');
             INSERT INTO trash (id, path, removed_at) VALUES ('waste', '/waste', 3);",
        )
        .unwrap();
    let mut database = Some(database);

    let (first, requests) = drive(&mut database, |session| migrate(session));
    assert_eq!(first, Ok(()));
    // Five looks, and a statement for each of the four columns that were missing.
    assert_eq!(requests, 9);
    let rows = (rift_rows(database.as_ref().unwrap()), trash_rows(database.as_ref().unwrap()));
    let (second, requests) = drive(&mut database, |session| migrate(session));
    assert_eq!(second, Ok(()));
    assert_eq!(requests, 5);
    let again = (rift_rows(database.as_ref().unwrap()), trash_rows(database.as_ref().unwrap()));
    assert_eq!(again, rows);

    let database = database.unwrap();
    assert!(columns(&database, "rift").contains(&"git_worktree_dir".to_owned()));
    assert!(columns(&database, "trash").contains(&"git_worktree_dir".to_owned()));
    let (rifts, trash) = rows;
    assert_eq!(
        rifts,
        vec![
            RiftRow {
                id: "old".to_owned(),
                parent_id: None,
                path: "/old".to_owned(),
                created_at: 1,
                git_storage_mode: "inline".to_owned(),
                shared_git_dir: None,
                git_worktree_dir: None,
            },
            RiftRow {
                id: "copy".to_owned(),
                parent_id: Some("old".to_owned()),
                path: "/copy".to_owned(),
                created_at: 2,
                git_storage_mode: "inline".to_owned(),
                shared_git_dir: Some("/store/git".to_owned()),
                git_worktree_dir: None,
            },
        ]
    );
    assert_eq!(
        trash,
        vec![TrashRow {
            id: "waste".to_owned(),
            path: "/waste".to_owned(),
            removed_at: 3,
            shared_git_dir: None,
            git_worktree_dir: None,
        }]
    );
}

#[test]
fn columns_that_exist_are_left_alone() {
    let (_temp, database) = opened();
    let mut database = Some(database);
    let (result, requests) = drive(&mut database, |session| {
        ensure_column("path", "this is no statement", session)
    });
    assert_eq!((result, requests), (Ok(()), 1));
}

#[test]
fn databases_that_refuse_are_reported() {
    let temp = TempDir::new().unwrap();
    let path = FsPath::from_text(temp.path().to_str().unwrap()).join("missing/registry.sqlite");
    let mut database = None;
    let (result, requests) = drive(&mut database, |session| Registry::open(&path, session));
    assert!(matches!(result, Err(Error::Database(_))));
    assert_eq!(requests, 1);

    let mut database = Some(Connection::open_in_memory().unwrap());
    let (result, _) = drive(&mut database, |session| ensure_column("x", "no statement", session));
    assert!(matches!(result, Err(Error::Database(_))));
}

#[test]
fn answers_of_another_shape_are_refused() {
    let mut session = Session::new();
    session.answer(Reply::Flag(true));
    assert_eq!(migrate(&mut session), Some(Err(Error::Unexpected)));
}

fn rift_rows(database: &Connection) -> Vec<RiftRow> {
    let mut statement = database.prepare(SELECT_RIFTS).unwrap();
    let rows = statement
        .query_map([], |row| {
            Ok(RiftRow {
                id: row.get(0)?,
                parent_id: row.get(1)?,
                path: row.get(2)?,
                created_at: row.get(3)?,
                git_storage_mode: row.get(4)?,
                shared_git_dir: row.get(5)?,
                git_worktree_dir: row.get(6)?,
            })
        })
        .unwrap();
    rows.map(|row| row.unwrap()).collect()
}

fn trash_rows(database: &Connection) -> Vec<TrashRow> {
    let mut statement = database.prepare(SELECT_TRASH).unwrap();
    let rows = statement
        .query_map([], |row| {
            Ok(TrashRow {
                id: row.get(0)?,
                path: row.get(1)?,
                removed_at: row.get(2)?,
                shared_git_dir: row.get(3)?,
                git_worktree_dir: row.get(4)?,
            })
        })
        .unwrap();
    rows.map(|row| row.unwrap()).collect()
}

/// Writes what has changed.
fn store(database: &Connection, changes: Changes) {
    for row in changes.removed_rifts {
        database.execute(DELETE_RIFT, [row.id]).unwrap();
    }
    for row in changes.removed_trash {
        database.execute(DELETE_TRASH, [row.id]).unwrap();
    }
    for row in changes.added_rifts {
        database
            .execute(
                INSERT_RIFT,
                (
                    row.id,
                    row.parent_id,
                    row.path,
                    row.created_at,
                    row.git_storage_mode,
                    row.shared_git_dir,
                    row.git_worktree_dir,
                ),
            )
            .unwrap();
    }
    for row in changes.added_trash {
        database
            .execute(
                INSERT_TRASH,
                (row.id, row.path, row.removed_at, row.shared_git_dir, row.git_worktree_dir),
            )
            .unwrap();
    }
}

#[test]
fn rows_survive_a_round_trip_through_the_database() {
    let (_temp, database) = opened();
    let mut registry = Registry::new();
    let git = FsPath::from_text("/store/a/git");
    let mode = GitStorageMode::SharedWorktrees;
    registry
        .insert_root_at(&id("a"), &FsPath::from_text("/a"), mode, Some(&git), 1)
        .unwrap();
    registry
        .insert_child_at(
            &id("b"),
            &id("a"),
            &FsPath::from_text("/b"),
            mode,
            Some(&git),
            Some(&git.join("worktrees/b")),
            2,
        )
        .unwrap();
    registry
        .trash_moved_at(
            &vec![MovedRecord {
                id: id("b"),
                original_path: FsPath::from_text("/b"),
                trash_path: FsPath::from_text("/t/b"),
            }],
            &vec![3],
        )
        .unwrap();

    store(&database, registry.changes_from(&Registry::new()));
    assert_eq!(rift_rows(&database), registry.rift_rows());
    assert_eq!(trash_rows(&database), registry.trash_rows());
}

/// The same questions and changes, put to SQLite as statements.
struct Statements {
    database: Connection,
}

impl Statements {
    fn execute(&self, text: &str, values: &[&str]) -> bool {
        self.database.execute(text, params_from_iter(values)).is_ok()
    }

    fn ids(&self, text: &str, values: &[&str]) -> Vec<String> {
        let mut statement = self.database.prepare(text).unwrap();
        let found = statement
            .query_map(params_from_iter(values), |row| row.get::<_, String>(0))
            .unwrap();
        found.map(|id| id.unwrap()).collect()
    }

    fn insert(&self, name: &str, parent: Option<&str>, path: &str, now: i64) -> bool {
        self.database
            .execute(
                "INSERT INTO rift (id, parent_id, path, created_at) VALUES (?1, ?2, ?3, ?4)",
                (name, parent, path, now),
            )
            .is_ok()
    }

    fn trash(&self, name: &str, path: &str, now: i64) -> bool {
        self.database.execute_batch("BEGIN").unwrap();
        let inserted = self
            .database
            .execute(
                "INSERT INTO trash (id, path, removed_at, shared_git_dir, git_worktree_dir)
                 SELECT id, ?2, ?3, shared_git_dir, git_worktree_dir FROM rift WHERE id = ?1",
                (name, path, now),
            )
            .is_ok();
        if !inserted {
            self.database.execute_batch("ROLLBACK").unwrap();
            return false;
        }
        self.execute("DELETE FROM rift WHERE id = ?1", &[name]);
        self.database.execute_batch("COMMIT").unwrap();
        true
    }

    fn subtree(&self, name: &str, least: &str) -> Vec<String> {
        self.ids(
            "WITH RECURSIVE subtree(id, depth) AS (
               SELECT id, 0 FROM rift WHERE id = ?1
               UNION ALL
               SELECT rift.id, subtree.depth + 1
               FROM rift JOIN subtree ON rift.parent_id = subtree.id
             ) SELECT id FROM subtree WHERE depth >= CAST(?2 AS INTEGER) ORDER BY depth DESC, id",
            &[name, least],
        )
    }
}

fn names(records: Vec<PathRecord>) -> Vec<String> {
    records.into_iter().map(|record| record.id.to_string()).collect()
}

/// Puts many operations to the registry and to SQLite, and the changes of the registry to a second
/// database: all three go the same way, from whatever rows they start.
fn compare(start: &str, mut seed: u64) {
    let (_temp, database) = opened();
    let (_other, written) = opened();
    for database in [&database, &written] {
        database.execute_batch("PRAGMA foreign_keys = OFF").unwrap();
        database.execute_batch(start).unwrap();
        database.execute_batch("PRAGMA foreign_keys = ON").unwrap();
    }
    let statements = Statements { database };
    let mut registry =
        Registry::from_rows(rift_rows(&statements.database), trash_rows(&statements.database))
            .ok()
            .unwrap();
    let words = ["a", "B", "b", "é", "z", "aa", "1", "Z"];
    let mut next = |limit: u64| -> usize {
        seed = seed.wrapping_mul(6364136223846793005).wrapping_add(1442695040888963407);
        ((seed >> 33) % limit) as usize
    };
    for round in 0..600 {
        let name = words[next(8)];
        let other = words[next(8)];
        let place = format!("/{}", words[next(8)]);
        let now = next(3) as i64;
        let before = Registry::from_rows(registry.rift_rows(), registry.trash_rows()).ok().unwrap();
        match next(7) {
            0 | 1 => {
                let mine = registry
                    .insert_root_at(
                        &id(name),
                        &FsPath::from_text(&place),
                        GitStorageMode::Inline,
                        None,
                        now,
                    )
                    .is_ok();
                assert_eq!(mine, statements.insert(name, None, &place, now), "round {round}");
            }
            2 | 3 if name != other => {
                let mine = registry
                    .insert_child_at(
                        &id(name),
                        &id(other),
                        &FsPath::from_text(&place),
                        GitStorageMode::Inline,
                        None,
                        None,
                        now,
                    )
                    .is_ok();
                assert_eq!(mine, statements.insert(name, Some(other), &place, now), "round {round}");
            }
            4 => {
                registry.delete_active(&id(name));
                assert!(statements.execute("DELETE FROM rift WHERE id = ?1", &[name]));
            }
            5 => {
                let moves = vec![MovedRecord {
                    id: id(name),
                    original_path: FsPath::from_text(&place),
                    trash_path: FsPath::from_text(&place),
                }];
                let mine = registry.trash_moved_at(&moves, &vec![now]).is_ok();
                assert_eq!(mine, statements.trash(name, &place, now), "round {round}");
            }
            _ => {
                registry.delete_trash(&id(name));
                assert!(statements.execute("DELETE FROM trash WHERE id = ?1", &[name]));
            }
        }
        assert_eq!(rift_rows(&statements.database), registry.rift_rows(), "round {round}");
        assert_eq!(trash_rows(&statements.database), registry.trash_rows(), "round {round}");
        store(&written, registry.changes_from(&before));
        assert_eq!(rift_rows(&written), registry.rift_rows(), "round {round}");
        assert_eq!(trash_rows(&written), registry.trash_rows(), "round {round}");
        if !registry.is_own_ancestor(&id(name)) {
            assert_eq!(
                statements.subtree(name, "0"),
                names(registry.subtree(&id(name), SubtreeScope::IncludingRoot)),
            );
            assert_eq!(
                statements.subtree(name, "1"),
                names(registry.subtree(&id(name), SubtreeScope::DescendantsOnly)),
            );
        }
        assert_eq!(
            statements.ids("SELECT path FROM rift WHERE parent_id = ?1 ORDER BY created_at, id", &[name]),
            registry
                .child_paths(&id(name))
                .into_iter()
                .map(|path| path.to_text().unwrap())
                .collect::<Vec<_>>(),
        );
        assert_eq!(
            statements.ids("SELECT id FROM trash ORDER BY removed_at, id", &[]),
            names(registry.trashed_paths()),
        );
        assert_eq!(statements.ids("SELECT id FROM rift", &[]).len(), registry.active_paths().len());
        assert_eq!(
            statements.ids("SELECT id FROM rift WHERE path = ?1", &[&place]),
            registry
                .record_at(&FsPath::from_text(&place))
                .unwrap()
                .map(|record| record.id.to_string())
                .into_iter()
                .collect::<Vec<_>>(),
        );
    }
}

#[test]
fn registry_does_what_sqlite_does() {
    compare("", 7);
}

#[test]
fn rows_without_their_parents_are_treated_as_sqlite_does() {
    let start = "INSERT INTO rift (id, parent_id, path, created_at) VALUES
        ('a', 'gone', '/a', 1), ('b', 'Z', '/b', 2), ('é', 'b', '/é', 3), ('Z', 'a', '/Z', 4);
        INSERT INTO trash (id, path, removed_at) VALUES ('aa', '/aa', 1);";
    for seed in 0..20 {
        compare(start, seed);
    }
}

#[test]
fn circles_are_treated_as_sqlite_does() {
    let start = "INSERT INTO rift (id, parent_id, path, created_at) VALUES
        ('a', 'b', '/a', 1), ('b', 'z', '/b', 2), ('z', 'a', '/z', 3), ('1', 'z', '/1', 4),
        ('Z', 'Z', '/Z', 5);";
    for seed in 0..20 {
        compare(start, seed);
    }
}
