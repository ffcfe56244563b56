use rift_core::error::Error;
use rift_core::id::{GitStorageMode, RiftId};
use rift_core::path::FsPath;
use rift_core::registry::{
    stamp, timestamp, MovedRecord, PathRecord, Registry, RiftRow, SubtreeScope, TrashRow,
};
use tempfile::TempDir;

fn registry() -> (TempDir, FsPath, Registry) {
    let temp = TempDir::new().unwrap();
    let path = FsPath::from_text(temp.path().to_str().unwrap());
    (temp, path, Registry::new())
}

fn id(value: &str) -> RiftId {
    RiftId::from_stored(value.to_owned())
}

fn path(value: &str) -> FsPath {
    FsPath::from_text(value)
}

fn ids(records: Vec<PathRecord>) -> Vec<String> {
    records.into_iter().map(|record| record.id.to_string()).collect()
}

/// Three generations: `a` above `b` and `c`, `b` above `d`; and `z` on its own.
fn family() -> Registry {
    let mut registry = Registry::new();
    let inline = GitStorageMode::Inline;
    registry.insert_root_at(&id("z"), &path("/z"), inline, None, 1).unwrap();
    registry.insert_root_at(&id("a"), &path("/a"), inline, None, 2).unwrap();
    registry.insert_child_at(&id("c"), &id("a"), &path("/c"), inline, None, None, 3).unwrap();
    registry.insert_child_at(&id("b"), &id("a"), &path("/b"), inline, None, None, 4).unwrap();
    registry.insert_child_at(&id("d"), &id("b"), &path("/d"), inline, None, None, 5).unwrap();
    registry
}

#[test]
fn subtree_returns_descendants_before_ancestors() {
    let (_temp, temp, mut registry) = registry();
    let root = temp.join("root");
    let child = temp.join("child");
    let sibling = temp.join("sibling");
    let grandchild = temp.join("grandchild");
    let root_id = id("root");
    let child_id = id("child");
    let sibling_id = id("sibling");
    let grandchild_id = id("grandchild");
    registry
        .insert_root(&root_id, &root, GitStorageMode::Inline, None)
        .unwrap();
    registry
        .insert_child(
            &child_id,
            &root_id,
            &child,
            GitStorageMode::Inline,
            None,
            None,
        )
        .unwrap();
    registry
        .insert_child(
            &sibling_id,
            &root_id,
            &sibling,
            GitStorageMode::Inline,
            None,
            None,
        )
        .unwrap();
    registry
        .insert_child(
            &grandchild_id,
            &child_id,
            &grandchild,
            GitStorageMode::Inline,
            None,
            None,
        )
        .unwrap();

    let subtree = registry
        .subtree(&root_id, SubtreeScope::IncludingRoot)
        .into_iter()
        .map(|record| record.id.to_string())
        .collect::<Vec<_>>();
    let descendants = registry
        .subtree(&root_id, SubtreeScope::DescendantsOnly)
        .into_iter()
        .map(|record| record.id.to_string())
        .collect::<Vec<_>>();

    assert_eq!(subtree, vec!["grandchild", "child", "sibling", "root"]);
    assert_eq!(descendants, vec!["grandchild", "child", "sibling"]);
    assert_eq!(registry.child_paths(&root_id), vec![child, sibling]);
}

#[test]
fn trash_moved_transfers_records_from_active_tree_to_trash() {
    let (_temp, temp, mut registry) = registry();
    let root = temp.join("root");
    let child = temp.join("child");
    let trash = temp.join(".trash/child");
    let root_id = id("root");
    let child_id = id("child");
    registry
        .insert_root(&root_id, &root, GitStorageMode::Inline, None)
        .unwrap();
    registry
        .insert_child(
            &child_id,
            &root_id,
            &child,
            GitStorageMode::Inline,
            None,
            None,
        )
        .unwrap();

    registry
        .trash_moved(&vec![MovedRecord {
            id: child_id.clone(),
            original_path: child.clone(),
            trash_path: trash.clone(),
        }])
        .unwrap();

    assert!(registry.record_id(&root_id).is_some());
    assert!(registry.record_id(&child_id).is_none());
    assert_eq!(
        registry.trashed_paths(),
        vec![PathRecord {
            id: child_id,
            path: trash,
            shared_git_dir: None,
            git_worktree_dir: None,
        }]
    );
}

#[test]
fn trash_moved_preserves_git_metadata() {
    let (_temp, temp, mut registry) = registry();
    let root = temp.join("root");
    let child = temp.join("child");
    let trash = temp.join(".trash/child");
    let root_git = temp.join("rift/repos/root/git");
    let child_git = root_git.join("worktrees/child");
    let root_id = id("root");
    let child_id = id("child");
    registry
        .insert_root(
            &root_id,
            &root,
            GitStorageMode::SharedWorktrees,
            Some(&root_git),
        )
        .unwrap();
    registry
        .insert_child(
            &child_id,
            &root_id,
            &child,
            GitStorageMode::SharedWorktrees,
            Some(&root_git),
            Some(&child_git),
        )
        .unwrap();

    registry
        .trash_moved(&vec![MovedRecord {
            id: child_id.clone(),
            original_path: child,
            trash_path: trash.clone(),
        }])
        .unwrap();

    assert_eq!(
        registry.trashed_paths(),
        vec![PathRecord {
            id: child_id,
            path: trash,
            shared_git_dir: Some(root_git),
            git_worktree_dir: Some(child_git),
        }]
    );
}

#[test]
fn git_storage_metadata_round_trips() {
    let (_temp, temp, mut registry) = registry();
    let root = temp.join("root");
    let child = temp.join("child");
    let root_git = temp.join("rift/repos/root/git");
    let child_git = root_git.join("worktrees/child");
    let root_id = id("root");
    let child_id = id("child");

    registry
        .insert_root(
            &root_id,
            &root,
            GitStorageMode::SharedWorktrees,
            Some(&root_git),
        )
        .unwrap();
    registry
        .insert_child(
            &child_id,
            &root_id,
            &child,
            GitStorageMode::SharedWorktrees,
            Some(&root_git),
            Some(&child_git),
        )
        .unwrap();

    let root_record = registry.record_id(&root_id).unwrap();
    let child_record = registry.record_id(&child_id).unwrap();

    assert_eq!(
        root_record.git_storage_mode,
        GitStorageMode::SharedWorktrees
    );
    assert_eq!(root_record.shared_git_dir, Some(root_git.clone()));
    assert_eq!(
        child_record.git_storage_mode,
        GitStorageMode::SharedWorktrees
    );
    assert_eq!(child_record.shared_git_dir, Some(root_git.clone()));

    let subtree = registry.subtree(&root_id, SubtreeScope::IncludingRoot);
    assert!(subtree.iter().any(|record| {
        record.id == child_id
            && record.shared_git_dir == Some(root_git.clone())
            && record.git_worktree_dir == Some(child_git.clone())
    }));
}

#[test]
fn inserted_workspace_is_found_by_id_and_by_path() {
    let mut registry = family();
    let shared = path("/store/a/git");
    let own = path("/store/a/git/worktrees/e");
    registry
        .insert_child_at(
            &id("e"),
            &id("d"),
            &path("/e"),
            GitStorageMode::SharedWorktrees,
            Some(&shared),
            Some(&own),
            6,
        )
        .unwrap();

    let by_id = registry.record_id(&id("e")).unwrap();
    let by_path = registry.record_at(&path("/e")).unwrap().unwrap();

    assert_eq!(by_id, by_path);
    assert_eq!(by_id.id, id("e"));
    assert_eq!(by_id.parent_id, Some(id("d")));
    assert_eq!(by_id.path.to_bytes(), b"/e".to_vec());
    assert_eq!(by_id.git_storage_mode, GitStorageMode::SharedWorktrees);
    assert_eq!(by_id.shared_git_dir, Some(shared));
    assert_eq!(registry.rift_rows()[5].created_at, 6);
    assert_eq!(registry.rift_rows()[5].git_worktree_dir, Some("/store/a/git/worktrees/e".to_owned()));
}

#[test]
fn unknown_workspaces_are_not_found() {
    let registry = family();
    assert!(registry.record_id(&id("nobody")).is_none());
    assert_eq!(registry.record_at(&path("/nowhere")), Ok(None));
    // The text of a path is compared, not where it leads.
    assert_eq!(registry.record_at(&path("/a/")), Ok(None));
    assert!(registry.subtree(&id("nobody"), SubtreeScope::IncludingRoot).is_empty());
    assert!(registry.child_paths(&id("d")).is_empty());
}

#[test]
fn rows_that_break_a_rule_are_refused_and_change_nothing() {
    let mut registry = family();
    let before = registry.rift_rows();
    let inline = GitStorageMode::Inline;

    let taken_id = registry.insert_root_at(&id("a"), &path("/new"), inline, None, 9);
    let taken_path = registry.insert_root_at(&id("new"), &path("/a"), inline, None, 9);
    let no_parent =
        registry.insert_child_at(&id("new"), &id("nobody"), &path("/new"), inline, None, None, 9);

    assert_eq!(taken_id, Err(Error::Constraint));
    assert_eq!(taken_path, Err(Error::Constraint));
    assert_eq!(no_parent, Err(Error::Constraint));
    assert_eq!(registry.rift_rows(), before);
}

#[test]
fn a_workspace_may_be_its_own_parent() {
    let mut registry = Registry::new();
    let added = registry.insert_child_at(
        &id("loop"),
        &id("loop"),
        &path("/loop"),
        GitStorageMode::Inline,
        None,
        None,
        1,
    );
    assert_eq!(added, Ok(()));
    assert_eq!(registry.child_paths(&id("loop")), vec![path("/loop")]);
    registry.delete_active(&id("loop"));
    assert!(registry.rift_rows().is_empty());
}

#[test]
fn paths_that_are_not_text_are_refused() {
    let mut registry = family();
    let before = registry.rift_rows();
    let odd = FsPath::from_bytes(vec![0x2f, 0xff, 0x61]);
    let message = "path is not valid UTF-8: /\u{fffd}a".to_owned();

    assert_eq!(
        registry.insert_root_at(&id("odd"), &odd, GitStorageMode::Inline, None, 9),
        Err(Error::Path(message.clone()))
    );
    assert_eq!(
        registry.insert_root_at(&id("odd"), &path("/odd"), GitStorageMode::Inline, Some(&odd), 9),
        Err(Error::Path(message.clone()))
    );
    assert_eq!(
        registry.insert_child_at(
            &id("odd"),
            &id("a"),
            &path("/odd"),
            GitStorageMode::Inline,
            None,
            Some(&odd),
            9
        ),
        Err(Error::Path(message.clone()))
    );
    assert_eq!(registry.record_at(&odd), Err(Error::Path(message.clone())));
    assert_eq!(
        registry.trash_moved(&vec![MovedRecord {
            id: id("d"),
            original_path: path("/d"),
            trash_path: odd,
        }]),
        Err(Error::Path(message))
    );
    assert_eq!(registry.rift_rows(), before);
}

#[test]
fn subtree_is_ordered_by_depth_and_by_id() {
    let registry = family();
    assert_eq!(
        ids(registry.subtree(&id("a"), SubtreeScope::IncludingRoot)),
        vec!["d", "b", "c", "a"]
    );
    assert_eq!(
        ids(registry.subtree(&id("a"), SubtreeScope::DescendantsOnly)),
        vec!["d", "b", "c"]
    );
    assert_eq!(ids(registry.subtree(&id("b"), SubtreeScope::IncludingRoot)), vec!["d", "b"]);
    assert_eq!(ids(registry.subtree(&id("z"), SubtreeScope::DescendantsOnly)), Vec::<String>::new());
}

#[test]
fn children_come_in_the_order_of_their_making() {
    let registry = family();
    assert_eq!(registry.child_paths(&id("a")), vec![path("/c"), path("/b")]);
    let mut twins = Registry::new();
    let inline = GitStorageMode::Inline;
    twins.insert_root_at(&id("a"), &path("/a"), inline, None, 1).unwrap();
    twins.insert_child_at(&id("y"), &id("a"), &path("/1"), inline, None, None, 7).unwrap();
    twins.insert_child_at(&id("x"), &id("a"), &path("/2"), inline, None, None, 7).unwrap();
    assert_eq!(twins.child_paths(&id("a")), vec![path("/2"), path("/1")]);
}

#[test]
fn active_paths_lists_all_rows() {
    assert_eq!(ids(family().active_paths()), vec!["z", "a", "c", "b", "d"]);
}

#[test]
fn deleting_takes_the_subtree_with_it() {
    let mut registry = family();
    registry.delete_active(&id("b"));
    assert_eq!(ids(registry.active_paths()), vec!["z", "a", "c"]);
    registry.delete_active(&id("nobody"));
    assert_eq!(ids(registry.active_paths()), vec!["z", "a", "c"]);
    registry.delete_active(&id("a"));
    assert_eq!(ids(registry.active_paths()), vec!["z"]);
}

#[test]
fn deleting_a_listed_subtree_is_deleting_its_root() {
    let mut one_by_one = family();
    let listed = one_by_one.subtree(&id("a"), SubtreeScope::IncludingRoot);
    one_by_one.delete_active_records(&listed);
    let mut at_once = family();
    at_once.delete_active(&id("a"));
    assert_eq!(one_by_one.rift_rows(), at_once.rift_rows());
    assert_eq!(ids(one_by_one.active_paths()), vec!["z"]);
}

fn moved(listed: &[PathRecord]) -> Vec<MovedRecord> {
    listed
        .iter()
        .map(|record| MovedRecord {
            id: record.id.clone(),
            original_path: record.path.clone(),
            trash_path: path("/.trash").join(record.id.as_str()),
        })
        .collect()
}

#[test]
fn moving_a_listed_subtree_loses_no_record() {
    let mut registry = family();
    let listed = registry.subtree(&id("a"), SubtreeScope::IncludingRoot);
    let times = vec![40, 30, 20, 10];
    registry.trash_moved_at(&moved(&listed), &times).unwrap();
    assert_eq!(ids(registry.active_paths()), vec!["z"]);
    // The first to be moved has the latest time here, so it comes last.
    assert_eq!(ids(registry.trashed_paths()), vec!["a", "c", "b", "d"]);
    assert_eq!(registry.trash_rows()[0].path, "/.trash/d");
}

#[test]
fn moving_a_parent_first_drops_its_children() {
    let mut registry = family();
    let moves = vec![
        MovedRecord { id: id("b"), original_path: path("/b"), trash_path: path("/t/b") },
        MovedRecord { id: id("d"), original_path: path("/d"), trash_path: path("/t/d") },
    ];
    registry.trash_moved_at(&moves, &vec![1, 2]).unwrap();
    assert_eq!(ids(registry.trashed_paths()), vec!["b"]);
    assert_eq!(ids(registry.active_paths()), vec!["z", "a", "c"]);
}

#[test]
fn moving_is_all_or_nothing() {
    let mut registry = family();
    let before = (registry.rift_rows(), registry.trash_rows());
    let moves = vec![
        MovedRecord { id: id("d"), original_path: path("/d"), trash_path: path("/t") },
        MovedRecord { id: id("c"), original_path: path("/c"), trash_path: path("/t") },
    ];
    assert_eq!(registry.trash_moved_at(&moves, &vec![1, 2]), Err(Error::Constraint));
    assert_eq!((registry.rift_rows(), registry.trash_rows()), before);
}

#[test]
fn moving_an_unknown_workspace_leaves_no_trace() {
    let mut registry = family();
    let moves =
        vec![MovedRecord { id: id("nobody"), original_path: path("/n"), trash_path: path("/t") }];
    assert_eq!(registry.trash_moved_at(&moves, &vec![1]), Ok(()));
    assert!(registry.trashed_paths().is_empty());
    assert_eq!(registry.rift_rows(), family().rift_rows());
}

#[test]
fn trash_is_emptied_one_by_one() {
    let mut registry = family();
    let listed = registry.subtree(&id("b"), SubtreeScope::IncludingRoot);
    registry.trash_moved_at(&moved(&listed), &vec![5, 5]).unwrap();
    assert_eq!(ids(registry.trashed_paths()), vec!["b", "d"]);
    registry.delete_trash(&id("b"));
    assert_eq!(ids(registry.trashed_paths()), vec!["d"]);
    registry.delete_trash(&id("b"));
    assert_eq!(ids(registry.trashed_paths()), vec!["d"]);
    // What is gone from the trash may be moved there again.
    registry.insert_root_at(&id("b"), &path("/b"), GitStorageMode::Inline, None, 8).unwrap();
    registry
        .trash_moved_at(
            &vec![MovedRecord { id: id("b"), original_path: path("/b"), trash_path: path("/t") }],
            &vec![1],
        )
        .unwrap();
    assert_eq!(ids(registry.trashed_paths()), vec!["b", "d"]);
}

#[test]
fn rows_are_taken_over_where_they_keep_the_rules() {
    let registry = family();
    let copy = Registry::from_rows(registry.rift_rows(), registry.trash_rows());
    assert_eq!(copy.ok().unwrap().rift_rows(), registry.rift_rows());

    let mut twice: Vec<RiftRow> = registry.rift_rows();
    twice.push(twice[0].clone());
    assert_eq!(Registry::from_rows(twice, Vec::new()).err(), Some(Error::Constraint));

    let mut same_path: Vec<RiftRow> = registry.rift_rows();
    same_path[1].path = same_path[0].path.clone();
    assert_eq!(Registry::from_rows(same_path, Vec::new()).err(), Some(Error::Constraint));

    let waste = TrashRow {
        id: "t".to_owned(),
        path: "/t".to_owned(),
        removed_at: 1,
        shared_git_dir: None,
        git_worktree_dir: None,
    };
    assert_eq!(
        Registry::from_rows(Vec::new(), vec![waste.clone(), waste]).err(),
        Some(Error::Constraint)
    );
}

/// A row of a workspace at the path of its name.
fn row(name: &str, parent: Option<&str>) -> RiftRow {
    RiftRow {
        id: name.to_owned(),
        parent_id: parent.map(|parent| parent.to_owned()),
        path: format!("/{name}"),
        created_at: 1,
        git_storage_mode: "inline".to_owned(),
        shared_git_dir: None,
        git_worktree_dir: None,
    }
}

#[test]
fn rows_may_come_before_their_parents() {
    let rows = vec![row("d", Some("b")), row("b", Some("a")), row("a", None), row("c", Some("a"))];
    let mut registry = Registry::from_rows(rows, Vec::new()).ok().unwrap();
    assert_eq!(
        ids(registry.subtree(&id("a"), SubtreeScope::IncludingRoot)),
        vec!["d", "b", "c", "a"]
    );
    registry.delete_active(&id("b"));
    assert_eq!(ids(registry.active_paths()), vec!["a", "c"]);
}

#[test]
fn rows_may_have_lost_their_parents() {
    let rows = vec![row("b", Some("gone")), row("c", Some("b")), row("z", None)];
    let mut registry = Registry::from_rows(rows, Vec::new()).ok().unwrap();
    let record = registry.record_id(&id("b")).unwrap();
    assert_eq!(record.parent_id, Some(id("gone")));
    assert_eq!(registry.child_paths(&id("gone")), vec![path("/b")]);
    assert!(registry.subtree(&id("gone"), SubtreeScope::IncludingRoot).is_empty());
    assert_eq!(ids(registry.subtree(&id("b"), SubtreeScope::IncludingRoot)), vec!["c", "b"]);
    // There is no row to remove, so nothing goes with it.
    registry.delete_active(&id("gone"));
    assert_eq!(ids(registry.active_paths()), vec!["b", "c", "z"]);
    registry.delete_active(&id("b"));
    assert_eq!(ids(registry.active_paths()), vec!["z"]);
}

#[test]
fn circles_are_noticed_and_removed_whole() {
    let rows = vec![row("a", Some("c")), row("b", Some("a")), row("c", Some("b")), row("d", Some("c"))];
    let mut registry = Registry::from_rows(rows, Vec::new()).ok().unwrap();
    for name in ["a", "b", "c"] {
        assert!(registry.is_own_ancestor(&id(name)));
    }
    assert!(!registry.is_own_ancestor(&id("d")));
    assert!(!registry.is_own_ancestor(&id("nobody")));
    assert_eq!(ids(registry.subtree(&id("d"), SubtreeScope::IncludingRoot)), vec!["d"]);
    registry.delete_active(&id("b"));
    assert!(registry.rift_rows().is_empty());
    assert!(!family().is_own_ancestor(&id("b")));
}

#[test]
fn lists_may_name_workspaces_in_any_order_and_twice() {
    let listed = family().subtree(&id("a"), SubtreeScope::IncludingRoot);
    let mut backwards = listed.clone();
    backwards.reverse();
    backwards.extend(listed.clone());
    let mut registry = family();
    registry.delete_active_records(&backwards);
    assert_eq!(ids(registry.active_paths()), vec!["z"]);

    let mut registry = family();
    registry.delete_active_records(&vec![listed[1].clone(), listed[0].clone()]);
    assert_eq!(ids(registry.active_paths()), vec!["z", "a", "c"]);
}

#[test]
fn no_operation_leaves_a_workspace_without_its_parent() {
    let known = |registry: &Registry| {
        let rows = registry.rift_rows();
        rows.iter().all(|row| {
            row.parent_id.is_none()
                || rows.iter().any(|other| Some(&other.id) == row.parent_id.as_ref())
        })
    };
    for name in ["a", "b", "c", "d", "z", "nobody"] {
        let mut deleted = family();
        deleted.delete_active(&id(name));
        assert!(known(&deleted), "{name}");
        let mut trashed = family();
        let moves =
            vec![MovedRecord { id: id(name), original_path: path("/o"), trash_path: path("/t") }];
        trashed.trash_moved_at(&moves, &vec![1]).unwrap();
        assert!(known(&trashed), "{name}");
    }
}

#[test]
fn moving_needs_room_in_the_trash() {
    let mut registry = family();
    let listed = registry.subtree(&id("b"), SubtreeScope::IncludingRoot);
    assert_eq!(registry.trash_moved_at(&moved(&listed), &vec![1, 2]), Ok(()));
    registry.insert_root_at(&id("b"), &path("/b"), GitStorageMode::Inline, None, 9).unwrap();
    let again = vec![MovedRecord { id: id("b"), original_path: path("/b"), trash_path: path("/n") }];
    assert_eq!(registry.trash_moved_at(&again, &vec![3]), Err(Error::Constraint));
    registry.delete_trash(&id("b"));
    assert_eq!(registry.trash_moved_at(&again, &vec![3]), Ok(()));
    assert_eq!(ids(registry.trashed_paths()), vec!["d", "b"]);
}

#[test]
fn changes_are_the_rows_that_went_and_came() {
    let before = family();
    let mut registry = family();
    assert!(registry.changes_from(&before).removed_rifts.is_empty());
    let listed = registry.subtree(&id("b"), SubtreeScope::IncludingRoot);
    registry.trash_moved_at(&moved(&listed), &vec![1, 2]).unwrap();
    registry.insert_root_at(&id("n"), &path("/n"), GitStorageMode::Inline, None, 9).unwrap();

    let changes = registry.changes_from(&before);
    let removed: Vec<&str> = changes.removed_rifts.iter().map(|row| row.id.as_str()).collect();
    assert_eq!(removed, vec!["b", "d"]);
    assert_eq!(changes.added_rifts, registry.rift_rows()[3..].to_vec());
    assert!(changes.removed_trash.is_empty());
    assert_eq!(changes.added_trash, registry.trash_rows());

    let back = before.changes_from(&registry);
    assert_eq!(back.added_rifts, changes.removed_rifts);
    assert_eq!(back.removed_trash, changes.added_trash);
}

#[test]
fn names_are_ordered_by_their_bytes() {
    let mut registry = Registry::new();
    let inline = GitStorageMode::Inline;
    registry.insert_root_at(&id("r"), &path("/r"), inline, None, 1).unwrap();
    for (number, name) in ["é", "z", "Z", "zz", "", "10", "9"].into_iter().enumerate() {
        let place = path("/c").join(&number.to_string());
        registry.insert_child_at(&id(name), &id("r"), &place, inline, None, None, 1).unwrap();
    }
    assert_eq!(
        ids(registry.subtree(&id("r"), SubtreeScope::DescendantsOnly)),
        vec!["", "10", "9", "Z", "z", "zz", "é"]
    );
}

#[test]
fn stamps_are_milliseconds_in_the_low_bits() {
    assert_eq!(stamp(None), 0);
    assert_eq!(stamp(Some(1_700_000_000_123)), 1_700_000_000_123);
    for millis in [0u128, 1, i64::MAX as u128, 1 << 63, u64::MAX as u128, 1 << 64, u128::MAX] {
        assert_eq!(stamp(Some(millis)), millis as i64);
    }
}

#[test]
fn the_clock_is_past_the_epoch() {
    let first = timestamp();
    let second = timestamp();
    assert!(first > 1_500_000_000_000);
    assert!(second >= first);
}

#[test]
fn storage_modes_are_stored_by_name() {
    for mode in [GitStorageMode::Inline, GitStorageMode::SharedWorktrees] {
        assert_eq!(GitStorageMode::from_stored(mode.as_str().to_owned()), mode);
    }
    assert_eq!(GitStorageMode::Inline.as_str(), "inline");
    assert_eq!(GitStorageMode::from_stored("anything".to_owned()), GitStorageMode::Inline);
}

#[test]
fn scopes_have_their_least_depths() {
    assert_eq!(SubtreeScope::IncludingRoot.min_depth(), 0);
    assert_eq!(SubtreeScope::DescendantsOnly.min_depth(), 1);
}

#[test]
fn ids_are_their_text() {
    assert_eq!(id("abc").as_str(), "abc");
    assert_eq!(id("abc").to_string(), "abc");
    assert_eq!(id("abc"), id("abc").clone());
    assert_ne!(id("abc"), id("abd"));
}
