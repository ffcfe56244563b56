//! The registry as mathematics: its rows, its rules, and what each operation makes of them.

use crate::error::ErrorView;
use crate::id::GitStorageMode;
use crate::order::KeyView;
use vstd::prelude::*;
use vstd::utf8::*;

verus! {

/// A workspace in use.
pub struct RiftView {
    pub id: Seq<char>,
    pub parent_id: Option<Seq<char>>,
    pub path: Seq<char>,
    pub created_at: int,
    pub git_storage_mode: Seq<char>,
    pub shared_git_dir: Option<Seq<char>>,
    pub git_worktree_dir: Option<Seq<char>>,
}

/// A workspace that was moved away and waits for its removal.
pub struct TrashView {
    pub id: Seq<char>,
    pub path: Seq<char>,
    pub removed_at: int,
    pub shared_git_dir: Option<Seq<char>>,
    pub git_worktree_dir: Option<Seq<char>>,
}

/// Both tables, each in the order in which its rows came.
pub struct Tables {
    pub rifts: Seq<RiftView>,
    pub trash: Seq<TrashView>,
}

/// What is known of one workspace.
pub struct RecordView {
    pub id: Seq<char>,
    pub parent_id: Option<Seq<char>>,
    pub path: Seq<u8>,
    pub git_storage_mode: GitStorageMode,
    pub shared_git_dir: Option<Seq<u8>>,
}

/// Where a workspace and its Git metadata are.
pub struct PathRecordView {
    pub id: Seq<char>,
    pub path: Seq<u8>,
    pub shared_git_dir: Option<Seq<u8>>,
    pub git_worktree_dir: Option<Seq<u8>>,
}

/// A workspace that was moved to the trash.
pub struct MovedView {
    pub id: Seq<char>,
    pub original_path: Seq<u8>,
    pub trash_path: Seq<u8>,
}

/// The path that a stored text names.
pub open spec fn stored_path(text: Option<Seq<char>>) -> Option<Seq<u8>> {
    match text {
        None => None,
        Some(text) => Some(encode_utf8(text)),
    }
}

/// The text by which a path is stored. Only paths that are UTF-8 have one.
pub open spec fn path_text_of(path: Seq<u8>) -> Result<Seq<char>, ErrorView> {
    if valid_utf8(path) {
        Ok(decode_utf8(path))
    } else {
        Err(ErrorView::Path("path is not valid UTF-8: "@ + crate::foreign::lossy_text(path)))
    }
}

pub open spec fn optional_path_text_of(path: Option<Seq<u8>>) -> Result<
    Option<Seq<char>>,
    ErrorView,
> {
    match path {
        None => Ok(None),
        Some(path) => match path_text_of(path) {
            Ok(text) => Ok(Some(text)),
            Err(error) => Err(error),
        },
    }
}

impl RiftView {
    pub open spec fn record(self) -> RecordView {
        RecordView {
            id: self.id,
            parent_id: self.parent_id,
            path: encode_utf8(self.path),
            git_storage_mode: GitStorageMode::of_text(self.git_storage_mode),
            shared_git_dir: stored_path(self.shared_git_dir),
        }
    }

    pub open spec fn path_record(self) -> PathRecordView {
        PathRecordView {
            id: self.id,
            path: encode_utf8(self.path),
            shared_git_dir: stored_path(self.shared_git_dir),
            git_worktree_dir: stored_path(self.git_worktree_dir),
        }
    }
}

impl TrashView {
    pub open spec fn path_record(self) -> PathRecordView {
        PathRecordView {
            id: self.id,
            path: encode_utf8(self.path),
            shared_git_dir: stored_path(self.shared_git_dir),
            git_worktree_dir: stored_path(self.git_worktree_dir),
        }
    }
}

pub open spec fn has_rift(rifts: Seq<RiftView>, id: Seq<char>) -> bool {
    exists|i: int| 0 <= i < rifts.len() && (#[trigger] rifts[i]).id == id
}

pub open spec fn has_rift_path(rifts: Seq<RiftView>, path: Seq<char>) -> bool {
    exists|i: int| 0 <= i < rifts.len() && (#[trigger] rifts[i]).path == path
}

pub open spec fn has_trash(trash: Seq<TrashView>, id: Seq<char>) -> bool {
    exists|i: int| 0 <= i < trash.len() && (#[trigger] trash[i]).id == id
}

pub open spec fn has_trash_path(trash: Seq<TrashView>, path: Seq<char>) -> bool {
    exists|i: int| 0 <= i < trash.len() && (#[trigger] trash[i]).path == path
}

/// The rules of the table of workspaces: no id and no path twice. A parent has to exist when a
/// workspace is added; that it still does is no rule, and neither is the order of the rows.
pub open spec fn rifts_ok(rifts: Seq<RiftView>) -> bool {
    &&& forall|i: int, j: int|
        0 <= i < j < rifts.len() ==> (#[trigger] rifts[i]).id != (#[trigger] rifts[j]).id
    &&& forall|i: int, j: int|
        0 <= i < j < rifts.len() ==> (#[trigger] rifts[i]).path != (#[trigger] rifts[j]).path
}

/// The rules of the trash: no id and no path twice.
pub open spec fn trash_ok(trash: Seq<TrashView>) -> bool {
    &&& forall|i: int, j: int|
        0 <= i < j < trash.len() ==> (#[trigger] trash[i]).id != (#[trigger] trash[j]).id
    &&& forall|i: int, j: int|
        0 <= i < j < trash.len() ==> (#[trigger] trash[i]).path != (#[trigger] trash[j]).path
}

impl Tables {
    pub open spec fn ok(self) -> bool {
        rifts_ok(self.rifts) && trash_ok(self.trash)
    }

    /// A new workspace added. No id and no path may come twice, and a parent has to exist, be it
    /// the new row itself.
    pub open spec fn with_rift(self, row: RiftView) -> Result<Tables, ErrorView> {
        if has_rift(self.rifts, row.id) || has_rift_path(self.rifts, row.path) || (
        row.parent_id matches Some(parent) && parent != row.id && !has_rift(self.rifts, parent)) {
            Err(ErrorView::Constraint)
        } else {
            Ok(Tables { rifts: self.rifts.push(row), trash: self.trash })
        }
    }

    pub open spec fn with_trash(self, row: TrashView) -> Result<Tables, ErrorView> {
        if has_trash(self.trash, row.id) || has_trash_path(self.trash, row.path) {
            Err(ErrorView::Constraint)
        } else {
            Ok(Tables { rifts: self.rifts, trash: self.trash.push(row) })
        }
    }

    /// A workspace removed, and with it all that descend from it.
    pub open spec fn without_rift(self, id: Seq<char>) -> Tables {
        Tables { rifts: remaining(self.rifts, id, self.rifts.len() as int), trash: self.trash }
    }

    pub open spec fn without_trash(self, id: Seq<char>) -> Tables {
        Tables { rifts: self.rifts, trash: other_trash(self.trash, id) }
    }

    /// Workspaces removed one after the other.
    pub open spec fn without_all(self, ids: Seq<Seq<char>>) -> Tables
        decreases ids.len(),
    {
        if ids.len() == 0 {
            self
        } else {
            self.without_rift(ids[0]).without_all(ids.drop_first())
        }
    }

    /// A workspace moved to the trash at a given time. What it keeps of its Git metadata moves
    /// with it. An id that is not in use leaves no trace in the trash.
    pub open spec fn trash_one(self, moved: MovedView, now: int) -> Result<Tables, ErrorView> {
        match path_text_of(moved.trash_path) {
            Err(error) => Err(error),
            Ok(text) => {
                let at = find_before(self.rifts, moved.id, self.rifts.len() as int);
                if at < 0 {
                    Ok(self.without_rift(moved.id))
                } else {
                    match self.with_trash(trashed_row(self.rifts[at], text, now)) {
                        Err(error) => Err(error),
                        Ok(next) => Ok(next.without_rift(moved.id)),
                    }
                }
            },
        }
    }

    /// Workspaces moved to the trash one after the other, each at its time.
    pub open spec fn trash_all(self, moved: Seq<MovedView>, times: Seq<int>) -> Result<
        Tables,
        ErrorView,
    >
        decreases moved.len(),
    {
        if moved.len() == 0 {
            Ok(self)
        } else {
            match self.trash_one(moved[0], times[0]) {
                Err(error) => Err(error),
                Ok(next) => next.trash_all(moved.drop_first(), times.drop_first()),
            }
        }
    }
}

/// What separates one state of the tables from an earlier one: the rows that are gone, and those
/// that are new.
pub struct ChangesView {
    pub removed_rifts: Seq<RiftView>,
    pub added_rifts: Seq<RiftView>,
    pub removed_trash: Seq<TrashView>,
    pub added_trash: Seq<TrashView>,
}

/// The rows whose ids others do not have.
pub open spec fn rifts_missing(rifts: Seq<RiftView>, others: Seq<RiftView>) -> Seq<RiftView> {
    rifts.filter(|row: RiftView| !has_rift(others, row.id))
}

/// The rows of the trash whose ids others do not have.
pub open spec fn trash_missing(trash: Seq<TrashView>, others: Seq<TrashView>) -> Seq<TrashView> {
    trash.filter(|row: TrashView| !has_trash(others, row.id))
}

impl Tables {
    pub open spec fn changes_from(self, before: Tables) -> ChangesView {
        ChangesView {
            removed_rifts: rifts_missing(before.rifts, self.rifts),
            added_rifts: rifts_missing(self.rifts, before.rifts),
            removed_trash: trash_missing(before.trash, self.trash),
            added_trash: trash_missing(self.trash, before.trash),
        }
    }
}

/// The ids of a listing.
pub open spec fn listed_ids(out: Seq<PathRecordView>) -> Seq<Seq<char>> {
    out.map_values(|record: PathRecordView| record.id)
}

/// The trash without one id.
pub open spec fn other_trash(trash: Seq<TrashView>, id: Seq<char>) -> Seq<TrashView> {
    trash.filter(|row: TrashView| row.id != id)
}

/// What the trash keeps of a workspace.
pub open spec fn trashed_row(row: RiftView, path: Seq<char>, now: int) -> TrashView {
    TrashView {
        id: row.id,
        path,
        removed_at: now,
        shared_git_dir: row.shared_git_dir,
        git_worktree_dir: row.git_worktree_dir,
    }
}

/// The last position before `i` with the given id, or -1.
pub open spec fn find_before(rifts: Seq<RiftView>, id: Seq<char>, i: int) -> int
    decreases i,
{
    if i <= 0 {
        -1
    } else if rifts[i - 1].id == id {
        i - 1
    } else {
        find_before(rifts, id, i - 1)
    }
}

/// Where the parent of row `i` is, or -1 where it has none or that is missing.
pub open spec fn parent_at(rifts: Seq<RiftView>, i: int) -> int {
    match rifts[i].parent_id {
        None => -1,
        Some(parent) => find_before(rifts, parent, rifts.len() as int),
    }
}

/// Whether the way from row `i` to the workspace `top`, from parent to parent, is that many
/// generations long.
pub open spec fn reaches(
    rifts: Seq<RiftView>,
    i: int,
    top: Seq<char>,
    generations: nat,
) -> bool
    decreases generations,
{
    &&& 0 <= i < rifts.len()
    &&& if rifts[i].id == top {
        generations == 0
    } else {
        &&& generations > 0
        &&& reaches(rifts, parent_at(rifts, i), top, (generations - 1) as nat)
    }
}

/// How many generations row `i` is below the workspace `top`: zero for `top` itself, and nothing
/// where it does not descend from it.
pub open spec fn depth(rifts: Seq<RiftView>, i: int, top: Seq<char>) -> Option<nat> {
    if exists|generations: nat| reaches(rifts, i, top, generations) {
        Some(choose|generations: nat| reaches(rifts, i, top, generations))
    } else {
        None
    }
}

/// The first `n` rows without those that are `top` or descend from it.
pub open spec fn remaining(rifts: Seq<RiftView>, top: Seq<char>, n: int) -> Seq<RiftView>
    decreases n,
{
    if n <= 0 {
        Seq::empty()
    } else if depth(rifts, n - 1, top) is Some {
        remaining(rifts, top, n - 1)
    } else {
        remaining(rifts, top, n - 1).push(rifts[n - 1])
    }
}

/// Whether `out` lists the chosen positions below `n`, each once, by increasing key.
pub open spec fn lists<T>(
    out: Seq<T>,
    n: int,
    chosen: spec_fn(int) -> bool,
    key: spec_fn(int) -> KeyView,
    item: spec_fn(int) -> T,
) -> bool {
    exists|positions: Seq<int>| #[trigger] lists_at(out, positions, n, chosen, key, item)
}

/// Whether `out` lists the chosen positions below `n` in the order given.
pub open spec fn lists_at<T>(
    out: Seq<T>,
    positions: Seq<int>,
    n: int,
    chosen: spec_fn(int) -> bool,
    key: spec_fn(int) -> KeyView,
    item: spec_fn(int) -> T,
) -> bool {
    &&& out == positions.map_values(item)
    &&& forall|k: int|
        0 <= k < positions.len() ==> 0 <= #[trigger] positions[k] < n && chosen(positions[k])
    &&& forall|i: int| 0 <= i < n && #[trigger] chosen(i) ==> positions.contains(i)
    &&& forall|k: int, l: int|
        0 <= k < l < positions.len() ==> crate::order::key_less(
            key(#[trigger] positions[k]),
            key(#[trigger] positions[l]),
        )
}

/// The rows `least` generations and more below `top`.
pub open spec fn below(rifts: Seq<RiftView>, top: Seq<char>, least: nat) -> spec_fn(int) -> bool {
    |i: int| depth(rifts, i, top) matches Some(generations) && generations >= least
}

/// Deeper rows come first; rows of one generation by id.
pub open spec fn deepest_first(rifts: Seq<RiftView>, top: Seq<char>) -> spec_fn(int) -> KeyView {
    |i: int| KeyView { rank: -(depth(rifts, i, top).unwrap_or(0) as int), name: rifts[i].id }
}

/// Whether a workspace descends from itself. Below such a one there is no end of generations.
pub open spec fn own_ancestor(rifts: Seq<RiftView>, id: Seq<char>) -> bool {
    exists|i: int|
        0 <= i < rifts.len() && (#[trigger] rifts[i]).id == id && depth(
            rifts,
            parent_at(rifts, i),
            id,
        ) is Some
}

/// A subtree: the rows at least so many generations below its root, descendants before ancestors.
pub open spec fn lists_subtree(
    out: Seq<PathRecordView>,
    rifts: Seq<RiftView>,
    top: Seq<char>,
    least: nat,
) -> bool {
    lists(
        out,
        rifts.len() as int,
        below(rifts, top, least),
        deepest_first(rifts, top),
        |i: int| rifts[i].path_record(),
    )
}

/// The children of a workspace, the oldest first.
pub open spec fn lists_children(
    out: Seq<Seq<u8>>,
    rifts: Seq<RiftView>,
    parent: Seq<char>,
) -> bool {
    lists(
        out,
        rifts.len() as int,
        |i: int| rifts[i].parent_id == Some(parent),
        |i: int| KeyView { rank: rifts[i].created_at, name: rifts[i].id },
        |i: int| encode_utf8(rifts[i].path),
    )
}

/// The trash, what was removed first in front.
pub open spec fn lists_trash(out: Seq<PathRecordView>, trash: Seq<TrashView>) -> bool {
    lists(
        out,
        trash.len() as int,
        |i: int| true,
        |i: int| KeyView { rank: trash[i].removed_at, name: trash[i].id },
        |i: int| trash[i].path_record(),
    )
}

pub proof fn lemma_find_before(rifts: Seq<RiftView>, id: Seq<char>, i: int)
    requires
        0 <= i <= rifts.len(),
    ensures
        -1 <= find_before(rifts, id, i) < i || (i == 0 && find_before(rifts, id, i) == -1),
        find_before(rifts, id, i) >= 0 ==> rifts[find_before(rifts, id, i)].id == id,
        forall|j: int| find_before(rifts, id, i) < j < i ==> (#[trigger] rifts[j]).id != id,
        find_before(rifts, id, i) >= 0 <==> has_rift(rifts.take(i), id),
    decreases i,
{
    if i > 0 && rifts[i - 1].id != id {
        lemma_find_before(rifts, id, i - 1);
    }
    let at = find_before(rifts, id, i);
    if at >= 0 {
        assert(rifts.take(i)[at].id == id);
    }
}

/// There is one way up from a row, so it has one length.
pub proof fn lemma_one_depth(rifts: Seq<RiftView>, i: int, top: Seq<char>, a: nat, b: nat)
    requires
        reaches(rifts, i, top, a),
        reaches(rifts, i, top, b),
    ensures
        a == b,
    decreases a,
{
    if rifts[i].id != top {
        lemma_one_depth(rifts, parent_at(rifts, i), top, (a - 1) as nat, (b - 1) as nat);
    }
}

/// The depth of a row is the length of the way up.
pub proof fn lemma_depth(rifts: Seq<RiftView>, i: int, top: Seq<char>)
    ensures
        forall|generations: nat| #[trigger]
            reaches(rifts, i, top, generations) <==> depth(rifts, i, top) == Some(generations),
{
    assert forall|generations: nat| #[trigger]
        reaches(rifts, i, top, generations) <==> depth(rifts, i, top) == Some(generations) by {
        if reaches(rifts, i, top, generations) {
            let found = depth(rifts, i, top)->0;
            assert(reaches(rifts, i, top, found));
            lemma_one_depth(rifts, i, top, generations, found);
        }
    }
}

/// A row is one generation further down than its parent, unless it is the top itself.
pub proof fn lemma_depth_step(rifts: Seq<RiftView>, i: int, top: Seq<char>)
    requires
        0 <= i < rifts.len(),
    ensures
        rifts[i].id == top ==> depth(rifts, i, top) == Some(0nat),
        rifts[i].id != top ==> depth(rifts, i, top) == (match depth(
            rifts,
            parent_at(rifts, i),
            top,
        ) {
            Some(generations) => Some((generations + 1) as nat),
            None => None,
        }),
{
    lemma_depth(rifts, i, top);
    let up = parent_at(rifts, i);
    lemma_depth(rifts, up, top);
    if rifts[i].id == top {
        assert(reaches(rifts, i, top, 0));
    } else {
        if let Some(generations) = depth(rifts, up, top) {
            assert(reaches(rifts, up, top, generations));
            assert(reaches(rifts, i, top, (generations + 1) as nat));
        }
        if let Some(generations) = depth(rifts, i, top) {
            assert(reaches(rifts, i, top, generations));
            assert(reaches(rifts, up, top, (generations - 1) as nat));
        }
    }
}

/// The parent of a row has the id that the row says.
pub proof fn lemma_parent_at(rifts: Seq<RiftView>, i: int)
    requires
        rifts_ok(rifts),
        0 <= i < rifts.len(),
    ensures
        -1 <= parent_at(rifts, i) < rifts.len(),
        parent_at(rifts, i) >= 0 ==> rifts[i].parent_id == Some(rifts[parent_at(rifts, i)].id),
        forall|j: int|
            0 <= j < rifts.len() && rifts[i].parent_id == Some((#[trigger] rifts[j]).id)
                ==> parent_at(rifts, i) == j,
{
    if let Some(parent) = rifts[i].parent_id {
        lemma_find_before(rifts, parent, rifts.len() as int);
        assert(rifts.take(rifts.len() as int) =~= rifts);
    }
}

/// Adding a row that breaks no rule keeps the rules.
pub proof fn lemma_with_rift_ok(tables: Tables, row: RiftView)
    requires
        tables.ok(),
    ensures
        tables.with_rift(row) matches Ok(next) ==> next.ok(),
{
}

/// Row `i` is among those left, or it descends from what was removed.
pub proof fn lemma_remaining_rows(rifts: Seq<RiftView>, top: Seq<char>, n: int)
    requires
        0 <= n <= rifts.len(),
    ensures
        remaining(rifts, top, n).len() <= n,
        forall|k: int|
            0 <= k < remaining(rifts, top, n).len() ==> exists|i: int|
                0 <= i < n && #[trigger] rifts[i] == (#[trigger] remaining(rifts, top, n)[k])
                    && depth(rifts, i, top) is None,
        forall|i: int|
            0 <= i < n && depth(rifts, i, top) is None ==> remaining(rifts, top, n).contains(
                #[trigger] rifts[i],
            ),
    decreases n,
{
    if n > 0 {
        lemma_remaining_rows(rifts, top, n - 1);
        let before = remaining(rifts, top, n - 1);
        let out = remaining(rifts, top, n);
        assert forall|k: int| 0 <= k < out.len() implies exists|i: int|
            0 <= i < n && #[trigger] rifts[i] == (#[trigger] out[k]) && depth(rifts, i, top)
                is None by {
            if k < before.len() {
                assert(out[k] == before[k]);
            } else {
                assert(out[k] == rifts[n - 1]);
            }
        }
        assert forall|i: int| 0 <= i < n && depth(rifts, i, top) is None implies out.contains(
            #[trigger] rifts[i],
        ) by {
            if i < n - 1 {
                assert(before.contains(rifts[i]));
                let k = choose|k: int| 0 <= k < before.len() && before[k] == rifts[i];
                assert(out[k] == rifts[i]);
            } else {
                assert(out[out.len() - 1] == rifts[i]);
            }
        }
    }
}

/// Removing a workspace with its descendants keeps the rules.
pub proof fn lemma_remaining_ok(rifts: Seq<RiftView>, top: Seq<char>, n: int)
    requires
        rifts_ok(rifts),
        0 <= n <= rifts.len(),
    ensures
        rifts_ok(remaining(rifts, top, n)),
    decreases n,
{
    if n > 0 {
        lemma_remaining_ok(rifts, top, n - 1);
        let row = rifts[n - 1];
        if depth(rifts, n - 1, top) is None {
            let before = remaining(rifts, top, n - 1);
            lemma_remaining_rows(rifts, top, n - 1);
            assert forall|k: int| 0 <= k < before.len() implies (#[trigger] before[k]).id != row.id
                && before[k].path != row.path by {
                let i = choose|i: int|
                    0 <= i < n - 1 && #[trigger] rifts[i] == before[k] && depth(rifts, i, top)
                        is None;
                assert(rifts[i].id != rifts[n - 1].id);
            }
        }
    }
}

pub proof fn lemma_without_rift_ok(tables: Tables, id: Seq<char>)
    requires
        tables.ok(),
    ensures
        tables.without_rift(id).ok(),
{
    lemma_remaining_ok(tables.rifts, id, tables.rifts.len() as int);
}

pub proof fn lemma_with_trash_ok(tables: Tables, row: TrashView)
    requires
        tables.ok(),
    ensures
        tables.with_trash(row) matches Ok(next) ==> next.ok(),
{
}

pub proof fn lemma_trash_one_ok(tables: Tables, moved: MovedView, now: int)
    requires
        tables.ok(),
    ensures
        tables.trash_one(moved, now) matches Ok(next) ==> next.ok(),
{
    if let Ok(text) = path_text_of(moved.trash_path) {
        let at = find_before(tables.rifts, moved.id, tables.rifts.len() as int);
        lemma_without_rift_ok(tables, moved.id);
        if at >= 0 {
            let row = trashed_row(tables.rifts[at], text, now);
            lemma_with_trash_ok(tables, row);
            if let Ok(next) = tables.with_trash(row) {
                lemma_without_rift_ok(next, moved.id);
            }
        }
    }
}

/// Sorting the chosen positions by their keys gives a listing.
pub proof fn lemma_sorted_lists<T>(
    out: Seq<T>,
    found: Seq<int>,
    order: Seq<int>,
    keys: Seq<KeyView>,
    n: int,
    chosen: spec_fn(int) -> bool,
    key: spec_fn(int) -> KeyView,
    item: spec_fn(int) -> T,
)
    requires
        keys == found.map_values(key),
        crate::order::is_order(keys, order),
        forall|k: int| 0 <= k < found.len() ==> 0 <= #[trigger] found[k] < n && chosen(found[k]),
        forall|i: int| 0 <= i < n && #[trigger] chosen(i) ==> found.contains(i),
        out.len() == order.len(),
        forall|k: int| 0 <= k < out.len() ==> #[trigger] out[k] == item(found[order[k]]),
    ensures
        lists(out, n, chosen, key, item),
{
    let positions = order.map_values(|at: int| found[at]);
    assert(out =~= positions.map_values(item));
    assert forall|i: int| 0 <= i < n && #[trigger] chosen(i) implies positions.contains(i) by {
        assert(found.contains(i));
        let at = choose|at: int| 0 <= at < found.len() && found[at] == i;
        assert(order.contains(at));
        let k = choose|k: int| 0 <= k < order.len() && order[k] == at;
        assert(positions[k] == i);
    }
    assert forall|k: int, l: int| 0 <= k < l < positions.len() implies crate::order::key_less(
        key(#[trigger] positions[k]),
        key(#[trigger] positions[l]),
    ) by {
        assert(crate::order::key_less(keys[order[k]], keys[order[l]]));
    }
    assert(lists_at(out, positions, n, chosen, key, item));
}

/// Taking an id out of the trash keeps its rules.
pub proof fn lemma_other_trash_ok(trash: Seq<TrashView>, id: Seq<char>)
    requires
        trash_ok(trash),
    ensures
        trash_ok(other_trash(trash, id)),
        forall|k: int|
            0 <= k < other_trash(trash, id).len() ==> trash.contains(
                #[trigger] other_trash(trash, id)[k],
            ),
    decreases trash.len(),
{
    reveal(Seq::filter);
    if trash.len() > 0 {
        let front = trash.drop_last();
        lemma_other_trash_ok(front, id);
        let before = other_trash(front, id);
        let out = other_trash(trash, id);
        assert forall|k: int| 0 <= k < before.len() implies (#[trigger] before[k]).id
            != trash.last().id && before[k].path != trash.last().path && trash.contains(
            before[k],
        ) by {
            assert(front.contains(before[k]));
            let i = choose|i: int| 0 <= i < front.len() && front[i] == before[k];
            assert(trash[i] == before[k]);
        }
        assert(trash.contains(trash[trash.len() - 1]));
        assert forall|k: int| 0 <= k < out.len() implies trash.contains(#[trigger] out[k]) by {
            if k < before.len() {
                assert(out[k] == before[k]);
            }
        }
    }
}

} // verus!
