//! The registry of workspaces: which there are, which was copied from which, and what waits in the
//! trash.

use crate::error::{Error, ErrorView};
use crate::id::{GitStorageMode, RiftId};
use crate::order::{sort, Key, KeyView};
use crate::path::FsPath;
use crate::tables::{
    ChangesView, MovedView, PathRecordView, RecordView, RiftView, Tables, TrashView,
};
use crate::text::concat;
use vstd::prelude::*;
use vstd::string::*;
use vstd::utf8::*;

verus! {

/// What is known of one workspace.
#[derive(Debug, PartialEq, Eq)]
pub struct Record {
    pub id: RiftId,
    pub parent_id: Option<RiftId>,
    pub path: FsPath,
    pub git_storage_mode: GitStorageMode,
    pub shared_git_dir: Option<FsPath>,
}

impl DeepView for Record {
    type V = RecordView;

    open spec fn deep_view(&self) -> RecordView {
        RecordView {
            id: self.id@,
            parent_id: self.parent_id.deep_view(),
            path: self.path@,
            git_storage_mode: self.git_storage_mode,
            shared_git_dir: self.shared_git_dir.deep_view(),
        }
    }
}

/// Where a workspace and its Git metadata are.
#[derive(Debug, PartialEq, Eq)]
pub struct PathRecord {
    pub id: RiftId,
    pub path: FsPath,
    pub shared_git_dir: Option<FsPath>,
    pub git_worktree_dir: Option<FsPath>,
}

impl DeepView for PathRecord {
    type V = PathRecordView;

    open spec fn deep_view(&self) -> PathRecordView {
        PathRecordView {
            id: self.id@,
            path: self.path@,
            shared_git_dir: self.shared_git_dir.deep_view(),
            git_worktree_dir: self.git_worktree_dir.deep_view(),
        }
    }
}

/// A workspace that was moved to the trash.
#[derive(Debug, PartialEq, Eq)]
pub struct MovedRecord {
    pub id: RiftId,
    pub original_path: FsPath,
    pub trash_path: FsPath,
}

impl DeepView for MovedRecord {
    type V = MovedView;

    open spec fn deep_view(&self) -> MovedView {
        MovedView {
            id: self.id@,
            original_path: self.original_path@,
            trash_path: self.trash_path@,
        }
    }
}

/// Which part of a subtree is meant.
#[derive(Clone, Copy, Debug, PartialEq, Eq, Structural)]
pub enum SubtreeScope {
    IncludingRoot,
    DescendantsOnly,
}

impl SubtreeScope {
    /// The least number of generations below the root that belongs to the scope.
    pub open spec fn least(self) -> nat {
        match self {
            SubtreeScope::IncludingRoot => 0,
            SubtreeScope::DescendantsOnly => 1,
        }
    }

    pub fn min_depth(self) -> (depth: u8)
        ensures
            depth == self.least(),
    {
        match self {
            SubtreeScope::IncludingRoot => 0,
            SubtreeScope::DescendantsOnly => 1,
        }
    }
}

/// A row of the table of workspaces.
#[derive(Debug, PartialEq, Eq)]
pub struct RiftRow {
    pub id: String,
    pub parent_id: Option<String>,
    pub path: String,
    pub created_at: i64,
    pub git_storage_mode: String,
    pub shared_git_dir: Option<String>,
    pub git_worktree_dir: Option<String>,
}

impl DeepView for RiftRow {
    type V = RiftView;

    open spec fn deep_view(&self) -> RiftView {
        RiftView {
            id: self.id@,
            parent_id: self.parent_id.deep_view(),
            path: self.path@,
            created_at: self.created_at as int,
            git_storage_mode: self.git_storage_mode@,
            shared_git_dir: self.shared_git_dir.deep_view(),
            git_worktree_dir: self.git_worktree_dir.deep_view(),
        }
    }
}

/// A row of the trash.
#[derive(Debug, PartialEq, Eq)]
pub struct TrashRow {
    pub id: String,
    pub path: String,
    pub removed_at: i64,
    pub shared_git_dir: Option<String>,
    pub git_worktree_dir: Option<String>,
}

impl DeepView for TrashRow {
    type V = TrashView;

    open spec fn deep_view(&self) -> TrashView {
        TrashView {
            id: self.id@,
            path: self.path@,
            removed_at: self.removed_at as int,
            shared_git_dir: self.shared_git_dir.deep_view(),
            git_worktree_dir: self.git_worktree_dir.deep_view(),
        }
    }
}

/// What has to be written to bring stored rows up to date.
pub struct Changes {
    pub removed_rifts: Vec<RiftRow>,
    pub added_rifts: Vec<RiftRow>,
    pub removed_trash: Vec<TrashRow>,
    pub added_trash: Vec<TrashRow>,
}

impl DeepView for Changes {
    type V = ChangesView;

    open spec fn deep_view(&self) -> ChangesView {
        ChangesView {
            removed_rifts: self.removed_rifts.deep_view(),
            added_rifts: self.added_rifts.deep_view(),
            removed_trash: self.removed_trash.deep_view(),
            added_trash: self.added_trash.deep_view(),
        }
    }
}

impl DeepView for RiftId {
    type V = Seq<char>;

    open spec fn deep_view(&self) -> Seq<char> {
        self@
    }
}

/// A copy of a path that may be missing.
fn copy_path(path: &Option<FsPath>) -> (copy: Option<FsPath>)
    ensures
        copy.deep_view() == path.deep_view(),
{
    match path {
        Some(path) => Some(path.clone()),
        None => None,
    }
}

impl Clone for Record {
    fn clone(&self) -> (copy: Record)
        ensures
            copy.deep_view() == self.deep_view(),
    {
        let parent_id = match &self.parent_id {
            Some(parent_id) => Some(parent_id.clone()),
            None => None,
        };
        Record {
            id: self.id.clone(),
            parent_id,
            path: self.path.clone(),
            git_storage_mode: self.git_storage_mode,
            shared_git_dir: copy_path(&self.shared_git_dir),
        }
    }
}

impl Clone for PathRecord {
    fn clone(&self) -> (copy: PathRecord)
        ensures
            copy.deep_view() == self.deep_view(),
    {
        PathRecord {
            id: self.id.clone(),
            path: self.path.clone(),
            shared_git_dir: copy_path(&self.shared_git_dir),
            git_worktree_dir: copy_path(&self.git_worktree_dir),
        }
    }
}

/// A copy of a text that may be missing.
fn copy_text(text: &Option<String>) -> (copy: Option<String>)
    ensures
        copy.deep_view() == text.deep_view(),
{
    match text {
        Some(text) => Some(text.clone()),
        None => None,
    }
}

impl Clone for RiftRow {
    fn clone(&self) -> (copy: RiftRow)
        ensures
            copy.deep_view() == self.deep_view(),
    {
        RiftRow {
            id: self.id.clone(),
            parent_id: copy_text(&self.parent_id),
            path: self.path.clone(),
            created_at: self.created_at,
            git_storage_mode: self.git_storage_mode.clone(),
            shared_git_dir: copy_text(&self.shared_git_dir),
            git_worktree_dir: copy_text(&self.git_worktree_dir),
        }
    }
}

impl RiftRow {
    pub fn path_record(&self) -> (record: PathRecord)
        ensures
            record.deep_view() == self.deep_view().path_record(),
    {
        PathRecord {
            id: RiftId::from_stored(self.id.clone()),
            path: FsPath::from_text(self.path.as_str()),
            shared_git_dir: optional_path(copy_text(&self.shared_git_dir)),
            git_worktree_dir: optional_path(copy_text(&self.git_worktree_dir)),
        }
    }
}

impl Clone for TrashRow {
    fn clone(&self) -> (copy: TrashRow)
        ensures
            copy.deep_view() == self.deep_view(),
    {
        TrashRow {
            id: self.id.clone(),
            path: self.path.clone(),
            removed_at: self.removed_at,
            shared_git_dir: copy_text(&self.shared_git_dir),
            git_worktree_dir: copy_text(&self.git_worktree_dir),
        }
    }
}

impl TrashRow {
    pub fn path_record(&self) -> (record: PathRecord)
        ensures
            record.deep_view() == self.deep_view().path_record(),
    {
        PathRecord {
            id: RiftId::from_stored(self.id.clone()),
            path: FsPath::from_text(self.path.as_str()),
            shared_git_dir: optional_path(copy_text(&self.shared_git_dir)),
            git_worktree_dir: optional_path(copy_text(&self.git_worktree_dir)),
        }
    }
}

/// What is known of the workspace of a row.
pub fn record_from_row(row: &RiftRow) -> (record: Record)
    ensures
        record.deep_view() == row.deep_view().record(),
{
    let parent_id = match copy_text(&row.parent_id) {
        Some(text) => Some(RiftId::from_stored(text)),
        None => None,
    };
    Record {
        id: RiftId::from_stored(row.id.clone()),
        parent_id,
        path: FsPath::from_text(row.path.as_str()),
        git_storage_mode: GitStorageMode::from_stored(row.git_storage_mode.clone()),
        shared_git_dir: optional_path(copy_text(&row.shared_git_dir)),
    }
}

/// The text by which a path is stored.
pub fn path_text(path: &FsPath) -> (result: Result<String, Error>)
    ensures
        crate::error::result_view(result) == crate::tables::path_text_of(path@),
{
    match path.to_text() {
        Some(text) => {
            proof {
                encode_utf8_decode_utf8(text@);
            }
            Ok(text)
        },
        None => Err(Error::Path(concat("path is not valid UTF-8: ", path.display().as_str()))),
    }
}

pub fn optional_path_text(path: Option<&FsPath>) -> (result: Result<Option<String>, Error>)
    ensures
        crate::error::result_view(result) == crate::tables::optional_path_text_of(
            path.deep_view(),
        ),
{
    match path {
        None => Ok(None),
        Some(path) => match path_text(path) {
            Ok(text) => Ok(Some(text)),
            Err(error) => Err(error),
        },
    }
}

/// The path that a stored text names.
pub fn optional_path(path: Option<String>) -> (result: Option<FsPath>)
    ensures
        result.deep_view() == crate::tables::stored_path(path.deep_view()),
{
    match path {
        Some(text) => Some(FsPath::from_text(text.as_str())),
        None => None,
    }
}

/// A count of milliseconds as it is stored: its low 64 bits, read as a signed number.
pub open spec fn stamp_of(millis: int) -> int {
    let low = millis % 0x1_0000_0000_0000_0000;
    if low < 0x8000_0000_0000_0000 {
        low
    } else {
        low - 0x1_0000_0000_0000_0000
    }
}

/// Whether `stamp` is the stamp of a time since the epoch. A clock that stands before the epoch
/// gives zero.
pub open spec fn is_stamp(stamp: int, since_epoch: Option<u128>) -> bool {
    stamp == stamp_of(
        match since_epoch {
            Some(millis) => millis as int,
            None => 0,
        },
    )
}

/// The stamp for a time since the epoch. A clock that stands before the epoch gives zero.
pub fn stamp(since_epoch: Option<u128>) -> (stamp: i64)
    ensures
        is_stamp(stamp as int, since_epoch),
{
    let millis: u128 = match since_epoch {
        Some(millis) => millis,
        None => 0,
    };
    let low: u64 = (millis % 0x1_0000_0000_0000_0000) as u64;
    if low < 0x8000_0000_0000_0000 {
        low as i64
    } else {
        -((u64::MAX - low) as i64) - 1
    }
}

/// Whether `stamp` is that of a reading which the clock gave.
pub closed spec fn was_read(stamp: int) -> bool {
    exists|reading: std::time::SystemTime|
        #[trigger] call_ensures(crate::foreign::clock, (), reading) && stamp_of_reading(
            stamp,
            reading,
        )
}

/// Whether `stamp` is that of a reading of the clock: the milliseconds that have passed since the
/// epoch, or zero where the clock stands before it.
pub closed spec fn stamp_of_reading(stamp: int, reading: std::time::SystemTime) -> bool {
    exists|span: Result<std::time::Duration, std::time::SystemTimeError>|
        #[trigger] call_ensures(crate::foreign::since_epoch, (reading,), span) && match span {
            Ok(span) => exists|count: u128|
                #[trigger] call_ensures(crate::foreign::millis, (span,), count) && is_stamp(
                    stamp,
                    Some(count),
                ),
            Err(_) => is_stamp(stamp, None),
        }
}

/// A stamp that was read goes back to a reading that the clock gave: it is the number of
/// milliseconds from the epoch to that reading, as far as a stamp can hold it, and zero for a
/// reading before the epoch.
pub(crate) proof fn stamps_go_back_to_the_clock(stamp: int)
    requires
        was_read(stamp),
    ensures
        exists|
            reading: std::time::SystemTime,
            span: Result<std::time::Duration, std::time::SystemTimeError>,
        |
            #![trigger call_ensures(crate::foreign::since_epoch, (reading,), span)]
            {
                &&& call_ensures(crate::foreign::clock, (), reading)
                &&& call_ensures(crate::foreign::since_epoch, (reading,), span)
                &&& span is Err ==> stamp == 0
                &&& span matches Ok(span) ==> exists|count: u128|
                    #[trigger] call_ensures(crate::foreign::millis, (span,), count) && (count
                        < 0x8000_0000_0000_0000 ==> stamp == count)
            },
{
    let reading = choose|reading: std::time::SystemTime|
        #[trigger] call_ensures(crate::foreign::clock, (), reading) && stamp_of_reading(
            stamp,
            reading,
        );
    let span = choose|span: Result<std::time::Duration, std::time::SystemTimeError>|
        #[trigger] call_ensures(crate::foreign::since_epoch, (reading,), span) && match span {
            Ok(span) => exists|count: u128|
                #[trigger] call_ensures(crate::foreign::millis, (span,), count) && is_stamp(
                    stamp,
                    Some(count),
                ),
            Err(_) => is_stamp(stamp, None),
        };
    assert(call_ensures(crate::foreign::since_epoch, (reading,), span));
}

/// Whether all stamps are those of readings which the clock gave.
pub open spec fn all_read(stamps: Seq<i64>) -> bool {
    forall|k: int| 0 <= k < stamps.len() ==> was_read(#[trigger] stamps[k] as int)
}

/// The time now, in milliseconds since the epoch.
pub fn timestamp() -> (now: i64)
    ensures
        exists|since_epoch: Option<u128>| #[trigger] is_stamp(now as int, since_epoch),
        was_read(now as int),
{
    let since_epoch = match crate::foreign::since_epoch(crate::foreign::clock()) {
        Ok(span) => Some(crate::foreign::millis(span)),
        Err(_) => None,
    };
    stamp(since_epoch)
}

/// The registry.
pub struct Registry {
    rifts: Vec<RiftRow>,
    trash: Vec<TrashRow>,
}

impl View for Registry {
    type V = Tables;

    closed spec fn view(&self) -> Tables {
        Tables { rifts: self.rifts.deep_view(), trash: self.trash.deep_view() }
    }
}

/// Whether a row with the id is among the first `n`, and where the last one is.
fn find_rift(rifts: &Vec<RiftRow>, id: &String, n: usize) -> (at: Option<usize>)
    requires
        n <= rifts@.len(),
    ensures
        position(at) == crate::tables::find_before(rifts.deep_view(), id@, n as int),
        at matches Some(at) ==> at < n,
{
    let mut i: usize = n;
    while i > 0
        invariant
            i <= n <= rifts@.len(),
            crate::tables::find_before(rifts.deep_view(), id@, n as int)
                == crate::tables::find_before(rifts.deep_view(), id@, i as int),
        decreases i,
    {
        assert(rifts.deep_view()[i - 1] == rifts@[i - 1].deep_view());
        if rifts[i - 1].id == *id {
            return Some(i - 1);
        }
        i -= 1;
    }
    None
}

/// Where the parent of each row is.
fn parents(rifts: &Vec<RiftRow>) -> (found: Vec<Option<usize>>)
    ensures
        found@.len() == rifts@.len(),
        forall|i: int|
            0 <= i < found@.len() ==> position(#[trigger] found@[i]) == crate::tables::parent_at(
                rifts.deep_view(),
                i,
            ),
        forall|i: int|
            0 <= i < found@.len() ==> (#[trigger] found@[i] matches Some(at) ==> at
                < rifts@.len()),
{
    let count = rifts.len();
    let mut found: Vec<Option<usize>> = Vec::new();
    let mut i: usize = 0;
    while i < count
        invariant
            i <= count == rifts@.len(),
            found@.len() == i,
            forall|k: int|
                0 <= k < i ==> position(#[trigger] found@[k]) == crate::tables::parent_at(
                    rifts.deep_view(),
                    k,
                ),
            forall|k: int|
                0 <= k < i ==> (#[trigger] found@[k] matches Some(at) ==> at < rifts@.len()),
        decreases count - i,
    {
        assert(rifts.deep_view()[i as int] == rifts@[i as int].deep_view());
        let at = match &rifts[i].parent_id {
            None => None,
            Some(parent) => find_rift(rifts, parent, count),
        };
        found.push(at);
        i += 1;
    }
    found
}

/// A position, or -1 for none.
pub open spec fn position(at: Option<usize>) -> int {
    match at {
        Some(at) => at as int,
        None => -1,
    }
}

/// How many rows have no mark yet.
pub open spec fn unmarked(marks: Seq<Option<usize>>) -> nat
    decreases marks.len(),
{
    if marks.len() == 0 {
        0
    } else {
        unmarked(marks.drop_last()) + if marks.last() is None {
            1nat
        } else {
            0
        }
    }
}

proof fn lemma_unmarked(marks: Seq<Option<usize>>, i: int, mark: usize)
    requires
        0 <= i < marks.len(),
        marks[i] is None,
    ensures
        unmarked(marks.update(i, Some(mark))) == unmarked(marks) - 1,
        unmarked(marks) <= marks.len(),
    decreases marks.len(),
{
    lemma_unmarked_most(marks);
    let next = marks.update(i, Some(mark));
    if i < marks.len() - 1 {
        lemma_unmarked(marks.drop_last(), i, mark);
        assert(next.drop_last() =~= marks.drop_last().update(i, Some(mark)));
    } else {
        assert(next.drop_last() =~= marks.drop_last());
    }
}

proof fn lemma_unmarked_most(marks: Seq<Option<usize>>)
    ensures
        unmarked(marks) <= marks.len(),
    decreases marks.len(),
{
    if marks.len() > 0 {
        lemma_unmarked_most(marks.drop_last());
    }
}

/// Whether the marks are right as far as they go: they are the depths of the rows less than `next`
/// generations down, and the other rows have none.
pub open spec fn marked_to(
    rows: Seq<RiftView>,
    top: Seq<char>,
    marks: Seq<Option<usize>>,
    next: nat,
) -> bool {
    &&& marks.len() == rows.len()
    &&& forall|i: int|
        0 <= i < marks.len() ==> (#[trigger] marks[i] matches Some(generations)
            ==> generations < next && crate::tables::depth(rows, i, top) == Some(
            generations as nat,
        ))
    &&& forall|i: int|
        0 <= i < marks.len() && #[trigger] marks[i] is None ==> (crate::tables::depth(rows, i, top)
            matches Some(generations) ==> generations >= next)
}

/// Where no row is a given number of generations down, none is further down.
proof fn lemma_last_generation(rows: Seq<RiftView>, i: int, top: Seq<char>, next: nat, least: nat)
    requires
        crate::tables::reaches(rows, i, top, next),
        least <= next,
    ensures
        exists|j: int|
            0 <= j < rows.len() && #[trigger] crate::tables::depth(rows, j, top) == Some(least),
    decreases next,
{
    crate::tables::lemma_depth(rows, i, top);
    if least < next {
        lemma_last_generation(
            rows,
            crate::tables::parent_at(rows, i),
            top,
            (next - 1) as nat,
            least,
        );
    } else {
        assert(crate::tables::depth(rows, i, top) == Some(least));
    }
}

/// Marks the rows that are as many generations down as `next` says. Says how many there were.
fn mark_generation(
    rifts: &Vec<RiftRow>,
    above: &Vec<Option<usize>>,
    top: &String,
    marks: &mut Vec<Option<usize>>,
    next: usize,
) -> (any: bool)
    requires
        next > 0,
        above@.len() == rifts@.len(),
        forall|i: int|
            0 <= i < above@.len() ==> position(#[trigger] above@[i]) == crate::tables::parent_at(
                rifts.deep_view(),
                i,
            ),
        forall|i: int|
            0 <= i < above@.len() ==> (#[trigger] above@[i] matches Some(at) ==> at
                < rifts@.len()),
        marked_to(rifts.deep_view(), top@, old(marks)@, next as nat),
    ensures
        marked_to(rifts.deep_view(), top@, final(marks)@, (next + 1) as nat),
        any ==> unmarked(final(marks)@) < unmarked(old(marks)@),
        !any ==> final(marks)@ == old(marks)@,
        any <==> exists|i: int|
            0 <= i < rifts@.len() && #[trigger] crate::tables::depth(rifts.deep_view(), i, top@)
                == Some(next as nat),
{
    let ghost rows = rifts.deep_view();
    let mut any = false;
    let mut i: usize = 0;
    while i < rifts.len()
        invariant
            i <= rifts@.len(),
            next > 0,
            rows == rifts.deep_view(),
            above@.len() == rifts@.len(),
            forall|k: int|
                0 <= k < above@.len() ==> position(#[trigger] above@[k])
                    == crate::tables::parent_at(rows, k),
            forall|k: int|
                0 <= k < above@.len() ==> (#[trigger] above@[k] matches Some(at) ==> at
                    < rifts@.len()),
            marks@.len() == rows.len(),
            forall|k: int|
                0 <= k < marks@.len() ==> (#[trigger] marks@[k] matches Some(generations)
                    ==> generations <= next && crate::tables::depth(rows, k, top@) == Some(
                    generations as nat,
                )),
            forall|k: int|
                0 <= k < marks@.len() && #[trigger] marks@[k] is None ==> (crate::tables::depth(
                    rows,
                    k,
                    top@,
                ) matches Some(generations) ==> generations >= next && (k < i ==> generations
                    > next)),
            any ==> unmarked(marks@) < unmarked(old(marks)@),
            any ==> exists|k: int|
                0 <= k < rifts@.len() && #[trigger] crate::tables::depth(rows, k, top@) == Some(
                    next as nat,
                ),
            !any ==> marks@ == old(marks)@,
            marked_to(rows, top@, old(marks)@, next as nat),
        decreases rifts@.len() - i,
    {
        proof {
            crate::tables::lemma_depth_step(rows, i as int, top@);
            crate::tables::lemma_depth(rows, -1, top@);
        }
        if marks[i].is_none() {
            if let Some(at) = above[i] {
                if let Some(generations) = marks[at] {
                    assert(crate::tables::depth(rows, at as int, top@) == Some(
                        generations as nat,
                    ));
                    if generations == next - 1 {
                        proof {
                            lemma_unmarked(marks@, i as int, next);
                            assert(rows[i as int].id != top@);
                        }
                        marks.set(i, Some(next));
                        any = true;
                    }
                }
            }
        }
        i += 1;
    }
    proof {
        if !any {
            assert forall|k: int| 0 <= k < rifts@.len() implies #[trigger] crate::tables::depth(
                rows,
                k,
                top@,
            ) != Some(next as nat) by {
                if marks@[k] is Some {
                    assert(crate::tables::depth(rows, k, top@) == Some(marks@[k]->0 as nat));
                }
            }
        }
    }
    any
}

/// How many generations each row is below a workspace.
fn depths(rifts: &Vec<RiftRow>, top: &String) -> (found: Vec<Option<usize>>)
    ensures
        found@.len() == rifts@.len(),
        forall|i: int|
            0 <= i < found@.len() ==> match #[trigger] found@[i] {
                Some(generations) => crate::tables::depth(rifts.deep_view(), i, top@) == Some(
                    generations as nat,
                ),
                None => crate::tables::depth(rifts.deep_view(), i, top@) is None,
            },
{
    let ghost rows = rifts.deep_view();
    let above = parents(rifts);
    let mut marks: Vec<Option<usize>> = Vec::new();
    let mut i: usize = 0;
    while i < rifts.len()
        invariant
            i <= rifts@.len(),
            rows == rifts.deep_view(),
            marks@.len() == i,
            forall|k: int|
                0 <= k < i ==> #[trigger] marks@[k] == (if rows[k].id == top@ {
                    Some(0usize)
                } else {
                    None
                }),
        decreases rifts@.len() - i,
    {
        assert(rows[i as int] == rifts@[i as int].deep_view());
        let mark: Option<usize> = if rifts[i].id == *top {
            Some(0)
        } else {
            None
        };
        marks.push(mark);
        i += 1;
    }
    proof {
        assert forall|k: int| 0 <= k < marks@.len() implies (#[trigger] marks@[k] matches Some(
            generations,
        ) ==> crate::tables::depth(rows, k, top@) == Some(generations as nat)) && (marks@[k]
            is None ==> (crate::tables::depth(rows, k, top@) matches Some(generations)
            ==> generations >= 1)) by {
            crate::tables::lemma_depth_step(rows, k, top@);
        }
        lemma_unmarked_most(marks@);
    }
    let mut next: usize = 1;
    loop
        invariant
            next > 0,
            rows == rifts.deep_view(),
            above@.len() == rifts@.len(),
            forall|k: int|
                0 <= k < above@.len() ==> position(#[trigger] above@[k])
                    == crate::tables::parent_at(rows, k),
            forall|k: int|
                0 <= k < above@.len() ==> (#[trigger] above@[k] matches Some(at) ==> at
                    < rifts@.len()),
            marked_to(rows, top@, marks@, next as nat),
            next + unmarked(marks@) <= rifts@.len() + 1,
        decreases unmarked(marks@),
    {
        if !mark_generation(rifts, &above, top, &mut marks, next) {
            proof {
                assert forall|k: int| 0 <= k < marks@.len() && #[trigger] marks@[k]
                    is None implies crate::tables::depth(rows, k, top@) is None by {
                    crate::tables::lemma_depth(rows, k, top@);
                    if let Some(generations) = crate::tables::depth(rows, k, top@) {
                        assert(crate::tables::reaches(rows, k, top@, generations));
                        lemma_last_generation(rows, k, top@, generations, next as nat);
                    }
                }
            }
            return marks;
        }
        if next >= rifts.len() {
            proof {
                assert forall|k: int| 0 <= k < marks@.len() implies #[trigger] marks@[k]
                    is Some by {
                    if marks@[k] is None {
                        lemma_unmarked(marks@, k, 0);
                    }
                }
            }
            return marks;
        }
        next += 1;
    }
}

/// Whether a row with the id is in the trash.
fn id_in_trash(trash: &Vec<TrashRow>, id: &String) -> (found: bool)
    ensures
        found == crate::tables::has_trash(trash.deep_view(), id@),
{
    let mut i: usize = 0;
    while i < trash.len()
        invariant
            i <= trash@.len(),
            forall|k: int| 0 <= k < i ==> (#[trigger] trash.deep_view()[k]).id != id@,
        decreases trash@.len() - i,
    {
        assert(trash.deep_view()[i as int] == trash@[i as int].deep_view());
        if trash[i].id == *id {
            return true;
        }
        i += 1;
    }
    false
}

fn path_in_trash(trash: &Vec<TrashRow>, path: &String) -> (found: bool)
    ensures
        found == crate::tables::has_trash_path(trash.deep_view(), path@),
{
    let mut i: usize = 0;
    while i < trash.len()
        invariant
            i <= trash@.len(),
            forall|k: int| 0 <= k < i ==> (#[trigger] trash.deep_view()[k]).path != path@,
        decreases trash@.len() - i,
    {
        assert(trash.deep_view()[i as int] == trash@[i as int].deep_view());
        if trash[i].path == *path {
            return true;
        }
        i += 1;
    }
    false
}

/// Where the workspace at a path is.
fn find_path(rifts: &Vec<RiftRow>, path: &String) -> (at: Option<usize>)
    ensures
        at is Some <==> crate::tables::has_rift_path(rifts.deep_view(), path@),
        at matches Some(at) ==> at < rifts@.len() && rifts.deep_view()[at as int].path == path@,
{
    let mut i: usize = 0;
    while i < rifts.len()
        invariant
            i <= rifts@.len(),
            forall|k: int| 0 <= k < i ==> (#[trigger] rifts.deep_view()[k]).path != path@,
        decreases rifts@.len() - i,
    {
        assert(rifts.deep_view()[i as int] == rifts@[i as int].deep_view());
        if rifts[i].path == *path {
            return Some(i);
        }
        i += 1;
    }
    None
}

/// The row that a new workspace gets.
pub open spec fn new_row(
    id: Seq<char>,
    parent_id: Option<Seq<char>>,
    path: Seq<u8>,
    mode: GitStorageMode,
    shared_git_dir: Option<Seq<u8>>,
    git_worktree_dir: Option<Seq<u8>>,
    now: int,
) -> Result<RiftView, ErrorView> {
    match path_text_of_all(path, shared_git_dir, git_worktree_dir) {
        Err(error) => Err(error),
        Ok((path, shared_git_dir, git_worktree_dir)) => Ok(
            RiftView {
                id,
                parent_id,
                path,
                created_at: now,
                git_storage_mode: mode.text(),
                shared_git_dir,
                git_worktree_dir,
            },
        ),
    }
}

/// The texts of the three paths of a workspace, or the error for the first that has none.
pub open spec fn path_text_of_all(
    path: Seq<u8>,
    shared_git_dir: Option<Seq<u8>>,
    git_worktree_dir: Option<Seq<u8>>,
) -> Result<(Seq<char>, Option<Seq<char>>, Option<Seq<char>>), ErrorView> {
    match crate::tables::path_text_of(path) {
        Err(error) => Err(error),
        Ok(path) => match crate::tables::optional_path_text_of(shared_git_dir) {
            Err(error) => Err(error),
            Ok(shared_git_dir) => match crate::tables::optional_path_text_of(git_worktree_dir) {
                Err(error) => Err(error),
                Ok(git_worktree_dir) => Ok((path, shared_git_dir, git_worktree_dir)),
            },
        },
    }
}

/// The tables after a workspace was inserted.
pub open spec fn inserted(
    tables: Tables,
    id: Seq<char>,
    parent_id: Option<Seq<char>>,
    path: Seq<u8>,
    mode: GitStorageMode,
    shared_git_dir: Option<Seq<u8>>,
    git_worktree_dir: Option<Seq<u8>>,
    now: int,
) -> Result<Tables, ErrorView> {
    match new_row(id, parent_id, path, mode, shared_git_dir, git_worktree_dir, now) {
        Err(error) => Err(error),
        Ok(row) => tables.with_rift(row),
    }
}

/// Whether an operation that may fail did what it should: it brought the tables to what it should
/// and returned nothing, or left them alone and returned the error.
pub open spec fn did(
    before: Tables,
    after: Tables,
    result: Result<(), Error>,
    wanted: Result<Tables, ErrorView>,
) -> bool {
    match result {
        Ok(_) => wanted == Ok::<Tables, ErrorView>(after),
        Err(error) => after == before && wanted == Err::<Tables, ErrorView>(error@),
    }
}

/// Stamps as plain numbers.
pub open spec fn as_times(times: Seq<i64>) -> Seq<int> {
    times.map_values(|time: i64| time as int)
}

fn row_of(
    id: &RiftId,
    parent_id: Option<&RiftId>,
    path: &FsPath,
    mode: GitStorageMode,
    shared_git_dir: Option<&FsPath>,
    git_worktree_dir: Option<&FsPath>,
    now: i64,
) -> (result: Result<RiftRow, Error>)
    ensures
        crate::error::result_view(result) == new_row(
            id@,
            parent_id.deep_view(),
            path@,
            mode,
            shared_git_dir.deep_view(),
            git_worktree_dir.deep_view(),
            now as int,
        ),
{
    let path = match path_text(path) {
        Ok(path) => path,
        Err(error) => return Err(error),
    };
    let shared_git_dir = match optional_path_text(shared_git_dir) {
        Ok(shared_git_dir) => shared_git_dir,
        Err(error) => return Err(error),
    };
    let git_worktree_dir = match optional_path_text(git_worktree_dir) {
        Ok(git_worktree_dir) => git_worktree_dir,
        Err(error) => return Err(error),
    };
    let parent_id = match parent_id {
        Some(parent_id) => Some(parent_id.to_string()),
        None => None,
    };
    Ok(
        RiftRow {
            id: id.to_string(),
            parent_id,
            path,
            created_at: now,
            git_storage_mode: mode.as_str().to_owned(),
            shared_git_dir,
            git_worktree_dir,
        },
    )
}

fn copy_rifts(rifts: &Vec<RiftRow>) -> (copy: Vec<RiftRow>)
    ensures
        copy.deep_view() == rifts.deep_view(),
{
    let mut copy: Vec<RiftRow> = Vec::new();
    let mut i: usize = 0;
    while i < rifts.len()
        invariant
            i <= rifts@.len(),
            copy@.len() == i,
            forall|k: int|
                0 <= k < i ==> #[trigger] copy@[k].deep_view() == rifts@[k].deep_view(),
        decreases rifts@.len() - i,
    {
        copy.push(rifts[i].clone());
        i += 1;
    }
    assert(copy.deep_view() =~= rifts.deep_view());
    copy
}

fn copy_trash(trash: &Vec<TrashRow>) -> (copy: Vec<TrashRow>)
    ensures
        copy.deep_view() == trash.deep_view(),
{
    let mut copy: Vec<TrashRow> = Vec::new();
    let mut i: usize = 0;
    while i < trash.len()
        invariant
            i <= trash@.len(),
            copy@.len() == i,
            forall|k: int|
                0 <= k < i ==> #[trigger] copy@[k].deep_view() == trash@[k].deep_view(),
        decreases trash@.len() - i,
    {
        copy.push(trash[i].clone());
        i += 1;
    }
    assert(copy.deep_view() =~= trash.deep_view());
    copy
}

/// The rows whose ids others do not have.
fn missing_rifts(rifts: &Vec<RiftRow>, others: &Vec<RiftRow>) -> (missing: Vec<RiftRow>)
    ensures
        missing.deep_view() == crate::tables::rifts_missing(rifts.deep_view(), others.deep_view()),
{
    let ghost rows = rifts.deep_view();
    let ghost known = others.deep_view();
    let mut missing: Vec<RiftRow> = Vec::new();
    let mut i: usize = 0;
    proof {
        reveal(Seq::filter);
        assert(rows.take(0) =~= Seq::empty());
        assert(missing.deep_view() =~= Seq::<RiftView>::empty());
    }
    while i < rifts.len()
        invariant
            i <= rifts@.len(),
            rows == rifts.deep_view(),
            known == others.deep_view(),
            missing.deep_view() == crate::tables::rifts_missing(rows.take(i as int), known),
        decreases rifts@.len() - i,
    {
        let ghost before = missing.deep_view();
        proof {
            reveal(Seq::filter);
            assert(rows[i as int] == rifts@[i as int].deep_view());
            assert(rows.take(i + 1).drop_last() =~= rows.take(i as int));
            crate::tables::lemma_find_before(known, rifts@[i as int].id@, known.len() as int);
            assert(known.take(known.len() as int) =~= known);
        }
        if find_rift(others, &rifts[i].id, others.len()).is_none() {
            missing.push(rifts[i].clone());
            assert(missing.deep_view() =~= before.push(rows[i as int]));
        }
        i += 1;
    }
    assert(rows.take(i as int) =~= rows);
    missing
}

/// The rows of the trash whose ids others do not have.
fn missing_trash(trash: &Vec<TrashRow>, others: &Vec<TrashRow>) -> (missing: Vec<TrashRow>)
    ensures
        missing.deep_view() == crate::tables::trash_missing(trash.deep_view(), others.deep_view()),
{
    let ghost rows = trash.deep_view();
    let mut missing: Vec<TrashRow> = Vec::new();
    let mut i: usize = 0;
    proof {
        reveal(Seq::filter);
        assert(rows.take(0) =~= Seq::empty());
        assert(missing.deep_view() =~= Seq::<TrashView>::empty());
    }
    while i < trash.len()
        invariant
            i <= trash@.len(),
            rows == trash.deep_view(),
            missing.deep_view() == crate::tables::trash_missing(
                rows.take(i as int),
                others.deep_view(),
            ),
        decreases trash@.len() - i,
    {
        let ghost before = missing.deep_view();
        proof {
            reveal(Seq::filter);
            assert(rows[i as int] == trash@[i as int].deep_view());
            assert(rows.take(i + 1).drop_last() =~= rows.take(i as int));
        }
        if !id_in_trash(others, &trash[i].id) {
            missing.push(trash[i].clone());
            assert(missing.deep_view() =~= before.push(rows[i as int]));
        }
        i += 1;
    }
    assert(rows.take(i as int) =~= rows);
    missing
}

impl Registry {
    /// A registry without workspaces.
    pub fn new() -> (registry: Registry)
        ensures
            registry@ == (Tables { rifts: Seq::empty(), trash: Seq::empty() }),
            registry@.ok(),
    {
        let registry = Registry { rifts: Vec::new(), trash: Vec::new() };
        assert(registry@.rifts =~= Seq::empty());
        assert(registry@.trash =~= Seq::empty());
        registry
    }

    fn add_rift(&mut self, row: RiftRow) -> (result: Result<(), Error>)
        requires
            old(self)@.ok(),
        ensures
            did(
                old(self)@,
                final(self)@,
                result,
                old(self)@.with_rift(row.deep_view()),
            ),
            final(self)@.ok(),
    {
        let count = self.rifts.len();
        proof {
            crate::tables::lemma_with_rift_ok(self@, row.deep_view());
            crate::tables::lemma_find_before(self@.rifts, row.id@, count as int);
            assert(self@.rifts.take(count as int) =~= self@.rifts);
        }
        if find_rift(&self.rifts, &row.id, count).is_some() {
            return Err(Error::Constraint);
        }
        if find_path(&self.rifts, &row.path).is_some() {
            return Err(Error::Constraint);
        }
        if let Some(parent) = &row.parent_id {
            proof {
                crate::tables::lemma_find_before(self@.rifts, parent@, count as int);
            }
            if *parent != row.id && find_rift(&self.rifts, parent, count).is_none() {
                return Err(Error::Constraint);
            }
        }
        self.rifts.push(row);
        assert(self@.rifts =~= old(self)@.rifts.push(row.deep_view()));
        Ok(())
    }

    fn add_trash(&mut self, row: TrashRow) -> (result: Result<(), Error>)
        requires
            old(self)@.ok(),
        ensures
            did(
                old(self)@,
                final(self)@,
                result,
                old(self)@.with_trash(row.deep_view()),
            ),
            final(self)@.ok(),
    {
        if id_in_trash(&self.trash, &row.id) || path_in_trash(&self.trash, &row.path) {
            return Err(Error::Constraint);
        }
        self.trash.push(row);
        assert(self@.trash =~= old(self)@.trash.push(row.deep_view()));
        Ok(())
    }

    /// The registry that holds the given rows, the first in each list the oldest. Rows that break
    /// a rule make none.
    pub fn from_rows(rifts: Vec<RiftRow>, trash: Vec<TrashRow>) -> (result: Result<Registry, Error>)
        ensures
            result is Ok <==> (Tables { rifts: rifts.deep_view(), trash: trash.deep_view() }).ok(),
            result matches Ok(registry) ==> registry@.ok() && registry@.rifts == rifts.deep_view()
                && registry@.trash == trash.deep_view(),
            result matches Err(error) ==> error@ == ErrorView::Constraint,
    {
        let ghost rows = rifts.deep_view();
        let ghost junk = trash.deep_view();
        let mut registry = Registry::new();
        let mut i: usize = 0;
        assert(rows.take(0) =~= Seq::empty());
        while i < rifts.len()
            invariant
                i <= rifts@.len(),
                rows == rifts.deep_view(),
                registry@.ok(),
                registry@.rifts == rows.take(i as int),
                registry@.trash == Seq::<TrashView>::empty(),
            decreases rifts@.len() - i,
        {
            let ghost before = registry@.rifts;
            proof {
                assert(rows[i as int] == rifts@[i as int].deep_view());
                assert(rows.take(i + 1) =~= before.push(rows[i as int]));
                crate::tables::lemma_find_before(before, rifts@[i as int].id@, i as int);
                assert(before.take(i as int) =~= before);
            }
            if find_rift(&registry.rifts, &rifts[i].id, i).is_some() {
                return Err(Error::Constraint);
            }
            if find_path(&registry.rifts, &rifts[i].path).is_some() {
                return Err(Error::Constraint);
            }
            registry.rifts.push(rifts[i].clone());
            assert(registry@.rifts =~= before.push(rows[i as int]));
            i += 1;
        }
        assert(rows.take(i as int) =~= rows);
        let mut j: usize = 0;
        assert(junk.take(0) =~= Seq::empty());
        while j < trash.len()
            invariant
                j <= trash@.len(),
                junk == trash.deep_view(),
                registry@.ok(),
                registry@.rifts == rows,
                registry@.trash == junk.take(j as int),
            decreases trash@.len() - j,
        {
            proof {
                assert(junk[j as int] == trash@[j as int].deep_view());
                assert(junk.take(j + 1) =~= junk.take(j as int).push(junk[j as int]));
            }
            if let Err(error) = registry.add_trash(trash[j].clone()) {
                return Err(error);
            }
            j += 1;
        }
        assert(junk.take(j as int) =~= junk);
        Ok(registry)
    }

    /// The rows of the table of workspaces, the oldest first.
    pub fn rift_rows(&self) -> (rows: Vec<RiftRow>)
        ensures
            rows.deep_view() == self@.rifts,
    {
        copy_rifts(&self.rifts)
    }

    /// The rows of the trash, the oldest first.
    pub fn trash_rows(&self) -> (rows: Vec<TrashRow>)
        ensures
            rows.deep_view() == self@.trash,
    {
        copy_trash(&self.trash)
    }

    /// What has to be written where the rows of an earlier state are stored.
    pub fn changes_from(&self, before: &Registry) -> (changes: Changes)
        ensures
            changes.deep_view() == self@.changes_from(before@),
    {
        Changes {
            removed_rifts: missing_rifts(&before.rifts, &self.rifts),
            added_rifts: missing_rifts(&self.rifts, &before.rifts),
            removed_trash: missing_trash(&before.trash, &self.trash),
            added_trash: missing_trash(&self.trash, &before.trash),
        }
    }

    /// Adds a workspace without a parent, made at the given time.
    pub fn insert_root_at(
        &mut self,
        id: &RiftId,
        path: &FsPath,
        git_storage_mode: GitStorageMode,
        shared_git_dir: Option<&FsPath>,
        now: i64,
    ) -> (result: Result<(), Error>)
        requires
            old(self)@.ok(),
        ensures
            final(self)@.ok(),
            did(
                old(self)@,
                final(self)@,
                result,
                inserted(
                    old(self)@,
                    id@,
                    None,
                    path@,
                    git_storage_mode,
                    shared_git_dir.deep_view(),
                    None,
                    now as int,
                ),
            ),
    {
        match row_of(id, None, path, git_storage_mode, shared_git_dir, None, now) {
            Ok(row) => self.add_rift(row),
            Err(error) => Err(error),
        }
    }

    /// Adds a workspace without a parent, made now.
    pub fn insert_root(
        &mut self,
        id: &RiftId,
        path: &FsPath,
        git_storage_mode: GitStorageMode,
        shared_git_dir: Option<&FsPath>,
    ) -> (result: Result<(), Error>)
        requires
            old(self)@.ok(),
        ensures
            final(self)@.ok(),
            exists|now: i64|
                was_read(now as int) && did(
                    old(self)@,
                    final(self)@,
                    result,
                    #[trigger] inserted(
                        old(self)@,
                        id@,
                        None,
                        path@,
                        git_storage_mode,
                        shared_git_dir.deep_view(),
                        None,
                        now as int,
                    ),
                ),
    {
        let now = timestamp();
        self.insert_root_at(id, path, git_storage_mode, shared_git_dir, now)
    }

    /// Adds a copy of another workspace, made at the given time.
    pub fn insert_child_at(
        &mut self,
        id: &RiftId,
        parent_id: &RiftId,
        path: &FsPath,
        git_storage_mode: GitStorageMode,
        shared_git_dir: Option<&FsPath>,
        git_worktree_dir: Option<&FsPath>,
        now: i64,
    ) -> (result: Result<(), Error>)
        requires
            old(self)@.ok(),
        ensures
            final(self)@.ok(),
            did(
                old(self)@,
                final(self)@,
                result,
                inserted(
                    old(self)@,
                    id@,
                    Some(parent_id@),
                    path@,
                    git_storage_mode,
                    shared_git_dir.deep_view(),
                    git_worktree_dir.deep_view(),
                    now as int,
                ),
            ),
    {
        match row_of(
            id,
            Some(parent_id),
            path,
            git_storage_mode,
            shared_git_dir,
            git_worktree_dir,
            now,
        ) {
            Ok(row) => self.add_rift(row),
            Err(error) => Err(error),
        }
    }

    /// Adds a copy of another workspace, made now.
    pub fn insert_child(
        &mut self,
        id: &RiftId,
        parent_id: &RiftId,
        path: &FsPath,
        git_storage_mode: GitStorageMode,
        shared_git_dir: Option<&FsPath>,
        git_worktree_dir: Option<&FsPath>,
    ) -> (result: Result<(), Error>)
        requires
            old(self)@.ok(),
        ensures
            final(self)@.ok(),
            exists|now: i64|
                was_read(now as int) && did(
                    old(self)@,
                    final(self)@,
                    result,
                    #[trigger] inserted(
                        old(self)@,
                        id@,
                        Some(parent_id@),
                        path@,
                        git_storage_mode,
                        shared_git_dir.deep_view(),
                        git_worktree_dir.deep_view(),
                        now as int,
                    ),
                ),
    {
        let now = timestamp();
        self.insert_child_at(
            id,
            parent_id,
            path,
            git_storage_mode,
            shared_git_dir,
            git_worktree_dir,
            now,
        )
    }

    /// The workspace at a path.
    pub fn record_at(&self, path: &FsPath) -> (result: Result<Option<Record>, Error>)
        ensures
            match crate::tables::path_text_of(path@) {
                Err(error) => result matches Err(e) && e@ == error,
                Ok(text) => match result {
                    Err(_) => false,
                    Ok(None) => !crate::tables::has_rift_path(self@.rifts, text),
                    Ok(Some(record)) => exists|i: int|
                        0 <= i < self@.rifts.len() && (#[trigger] self@.rifts[i]).path == text
                            && record.deep_view() == self@.rifts[i].record(),
                },
            },
    {
        let text = match path_text(path) {
            Ok(text) => text,
            Err(error) => return Err(error),
        };
        match find_path(&self.rifts, &text) {
            None => Ok(None),
            Some(at) => {
                assert(self@.rifts[at as int] == self.rifts@[at as int].deep_view());
                Ok(Some(record_from_row(&self.rifts[at])))
            },
        }
    }

    /// The workspace with an id.
    pub fn record_id(&self, id: &RiftId) -> (result: Option<Record>)
        ensures
            match result {
                None => !crate::tables::has_rift(self@.rifts, id@),
                Some(record) => exists|i: int|
                    0 <= i < self@.rifts.len() && (#[trigger] self@.rifts[i]).id == id@
                        && record.deep_view() == self@.rifts[i].record(),
            },
    {
        let count = self.rifts.len();
        let text = id.to_string();
        proof {
            crate::tables::lemma_find_before(self@.rifts, id@, count as int);
            assert(self@.rifts.take(count as int) =~= self@.rifts);
        }
        match find_rift(&self.rifts, &text, count) {
            None => None,
            Some(at) => {
                assert(self@.rifts[at as int] == self.rifts@[at as int].deep_view());
                Some(record_from_row(&self.rifts[at]))
            },
        }
    }

    /// Whether a workspace descends from itself, so that its subtree has no end.
    pub fn is_own_ancestor(&self, id: &RiftId) -> (is: bool)
        requires
            self@.ok(),
        ensures
            is == crate::tables::own_ancestor(self@.rifts, id@),
    {
        let count = self.rifts.len();
        let text = id.to_string();
        let ghost rows = self@.rifts;
        proof {
            crate::tables::lemma_find_before(rows, id@, count as int);
            assert(rows.take(count as int) =~= rows);
        }
        let at = match find_rift(&self.rifts, &text, count) {
            None => return false,
            Some(at) => at,
        };
        let marks = depths(&self.rifts, &text);
        let above = parents(&self.rifts);
        proof {
            crate::tables::lemma_depth(rows, -1, id@);
            assert(rows[at as int].id == id@);
        }
        match above[at] {
            None => false,
            Some(parent) => marks[parent].is_some(),
        }
    }

    /// The workspaces that descend from one, and that one itself where the scope says so. Those
    /// further down come first; those of one generation are ordered by id.
    pub fn subtree(&self, id: &RiftId, scope: SubtreeScope) -> (records: Vec<PathRecord>)
        requires
            self@.ok(),
            !crate::tables::own_ancestor(self@.rifts, id@),
        ensures
            crate::tables::lists_subtree(
                records.deep_view(),
                self@.rifts,
                id@,
                scope.least(),
            ),
    {
        let top = id.to_string();
        let least = scope.min_depth();
        let marks = depths(&self.rifts, &top);
        let ghost rows = self@.rifts;
        let ghost chosen = crate::tables::below(rows, id@, scope.least());
        let ghost key = crate::tables::deepest_first(rows, id@);
        let ghost item = |i: int| rows[i].path_record();
        let mut found: Vec<usize> = Vec::new();
        let mut keys: Vec<Key> = Vec::new();
        let mut i: usize = 0;
        while i < self.rifts.len()
            invariant
                i <= self.rifts@.len(),
                rows == self@.rifts,
                rows == self.rifts.deep_view(),
                self@.ok(),
                top@ == id@,
                least == scope.least(),
                chosen == crate::tables::below(rows, id@, scope.least()),
                key == crate::tables::deepest_first(rows, id@),
                marks@.len() == rows.len(),
                forall|k: int|
                    0 <= k < marks@.len() ==> match #[trigger] marks@[k] {
                        Some(generations) => crate::tables::depth(rows, k, id@) == Some(
                            generations as nat,
                        ),
                        None => crate::tables::depth(rows, k, id@) is None,
                    },
                keys@.len() == found@.len(),
                forall|k: int|
                    0 <= k < found@.len() ==> 0 <= #[trigger] found@[k] < i && chosen(
                        found@[k] as int,
                    ) && keys@[k].deep_view() == key(found@[k] as int),
                forall|k: int, l: int|
                    0 <= k < l < found@.len() ==> #[trigger] found@[k] < #[trigger] found@[l],
                forall|a: int|
                    0 <= a < i && #[trigger] chosen(a) ==> found@.contains(a as usize),
            decreases self.rifts@.len() - i,
        {
            assert(rows[i as int] == self.rifts@[i as int].deep_view());
            let ghost before = found@;
            if let Some(generations) = marks[i] {
                if generations >= least as usize {
                    found.push(i);
                    keys.push(
                        Key { rank: -(generations as i128), name: self.rifts[i].id.clone() },
                    );
                    proof {
                        assert(found@[found@.len() - 1] == i);
                    }
                }
            }
            proof {
                assert forall|a: int| 0 <= a < i + 1 && #[trigger] chosen(a) implies found@.contains(
                    a as usize,
                ) by {
                    if a < i {
                        assert(before.contains(a as usize));
                        let k = choose|k: int| 0 <= k < before.len() && before[k] == a as usize;
                        assert(found@[k] == a as usize);
                    }
                }
            }
            i += 1;
        }
        let ghost places = found@.map_values(|at: usize| at as int);
        proof {
            assert forall|a: int, b: int| 0 <= a < b < keys@.len() implies (
            #[trigger] keys@[a]).name@ != (#[trigger] keys@[b]).name@ by {
                assert(found@[a] < found@[b]);
                assert(keys@[a].deep_view() == key(found@[a] as int));
                assert(keys@[b].deep_view() == key(found@[b] as int));
            }
            assert(keys.deep_view() =~= places.map_values(key));
        }
        let order = sort(&keys);
        let ghost sorted = order@.map_values(|at: usize| at as int);
        let mut records: Vec<PathRecord> = Vec::new();
        let mut k: usize = 0;
        while k < order.len()
            invariant
                k <= order@.len(),
                rows == self@.rifts,
                rows == self.rifts.deep_view(),
                sorted == order@.map_values(|at: usize| at as int),
                places == found@.map_values(|at: usize| at as int),
                keys@.len() == found@.len(),
                crate::order::is_order(keys.deep_view(), sorted),
                item == (|i: int| rows[i].path_record()),
                forall|a: int| 0 <= a < found@.len() ==> 0 <= #[trigger] found@[a] < rows.len(),
                records@.len() == k,
                forall|a: int|
                    0 <= a < k ==> #[trigger] records@[a].deep_view() == item(places[sorted[a]]),
            decreases order@.len() - k,
        {
            assert(sorted[k as int] == order@[k as int] as int);
            let at = found[order[k]];
            assert(rows[at as int] == self.rifts@[at as int].deep_view());
            records.push(self.rifts[at].path_record());
            k += 1;
        }
        proof {
            assert forall|a: int| 0 <= a < rows.len() && #[trigger] chosen(a) implies places.contains(
                a,
            ) by {
                assert(found@.contains(a as usize));
                let m = choose|m: int| 0 <= m < found@.len() && found@[m] == a as usize;
                assert(places[m] == a);
            }
            crate::tables::lemma_sorted_lists(
                records.deep_view(),
                places,
                sorted,
                keys.deep_view(),
                rows.len() as int,
                chosen,
                key,
                item,
            );
        }
        records
    }

    /// The paths of the copies made of a workspace, the oldest first.
    pub fn child_paths(&self, parent_id: &RiftId) -> (paths: Vec<FsPath>)
        requires
            self@.ok(),
        ensures
            crate::tables::lists_children(paths.deep_view(), self@.rifts, parent_id@),
    {
        let parent = parent_id.to_string();
        let ghost rows = self@.rifts;
        let ghost chosen = |i: int| rows[i].parent_id == Some(parent_id@);
        let ghost key = |i: int| KeyView { rank: rows[i].created_at, name: rows[i].id };
        let ghost item = |i: int| encode_utf8(rows[i].path);
        let mut found: Vec<usize> = Vec::new();
        let mut keys: Vec<Key> = Vec::new();
        let mut i: usize = 0;
        while i < self.rifts.len()
            invariant
                i <= self.rifts@.len(),
                rows == self@.rifts,
                rows == self.rifts.deep_view(),
                self@.ok(),
                parent@ == parent_id@,
                chosen == (|i: int| rows[i].parent_id == Some(parent_id@)),
                key == (|i: int| KeyView { rank: rows[i].created_at, name: rows[i].id }),
                keys@.len() == found@.len(),
                forall|k: int|
                    0 <= k < found@.len() ==> 0 <= #[trigger] found@[k] < i && chosen(
                        found@[k] as int,
                    ) && keys@[k].deep_view() == key(found@[k] as int),
                forall|k: int, l: int|
                    0 <= k < l < found@.len() ==> #[trigger] found@[k] < #[trigger] found@[l],
                forall|a: int|
                    0 <= a < i && #[trigger] chosen(a) ==> found@.contains(a as usize),
            decreases self.rifts@.len() - i,
        {
            assert(rows[i as int] == self.rifts@[i as int].deep_view());
            let ghost before = found@;
            if let Some(its_parent) = &self.rifts[i].parent_id {
                if *its_parent == parent {
                    found.push(i);
                    keys.push(
                        Key {
                            rank: self.rifts[i].created_at as i128,
                            name: self.rifts[i].id.clone(),
                        },
                    );
                    proof {
                        assert(found@[found@.len() - 1] == i);
                    }
                }
            }
            proof {
                assert forall|a: int| 0 <= a < i + 1 && #[trigger] chosen(a) implies found@.contains(
                    a as usize,
                ) by {
                    if a < i {
                        assert(before.contains(a as usize));
                        let k = choose|k: int| 0 <= k < before.len() && before[k] == a as usize;
                        assert(found@[k] == a as usize);
                    }
                }
            }
            i += 1;
        }
        let ghost places = found@.map_values(|at: usize| at as int);
        proof {
            assert forall|a: int, b: int| 0 <= a < b < keys@.len() implies (
            #[trigger] keys@[a]).name@ != (#[trigger] keys@[b]).name@ by {
                assert(found@[a] < found@[b]);
                assert(keys@[a].deep_view() == key(found@[a] as int));
                assert(keys@[b].deep_view() == key(found@[b] as int));
            }
            assert(keys.deep_view() =~= places.map_values(key));
        }
        let order = sort(&keys);
        let ghost sorted = order@.map_values(|at: usize| at as int);
        let mut paths: Vec<FsPath> = Vec::new();
        let mut k: usize = 0;
        while k < order.len()
            invariant
                k <= order@.len(),
                rows == self@.rifts,
                rows == self.rifts.deep_view(),
                sorted == order@.map_values(|at: usize| at as int),
                places == found@.map_values(|at: usize| at as int),
                keys@.len() == found@.len(),
                crate::order::is_order(keys.deep_view(), sorted),
                item == (|i: int| encode_utf8(rows[i].path)),
                forall|a: int| 0 <= a < found@.len() ==> 0 <= #[trigger] found@[a] < rows.len(),
                paths@.len() == k,
                forall|a: int|
                    0 <= a < k ==> #[trigger] paths@[a].deep_view() == item(places[sorted[a]]),
            decreases order@.len() - k,
        {
            assert(sorted[k as int] == order@[k as int] as int);
            let at = found[order[k]];
            assert(rows[at as int] == self.rifts@[at as int].deep_view());
            paths.push(FsPath::from_text(self.rifts[at].path.as_str()));
            k += 1;
        }
        proof {
            assert forall|a: int| 0 <= a < rows.len() && #[trigger] chosen(a) implies places.contains(
                a,
            ) by {
                assert(found@.contains(a as usize));
                let m = choose|m: int| 0 <= m < found@.len() && found@[m] == a as usize;
                assert(places[m] == a);
            }
            crate::tables::lemma_sorted_lists(
                paths.deep_view(),
                places,
                sorted,
                keys.deep_view(),
                rows.len() as int,
                chosen,
                key,
                item,
            );
        }
        paths
    }

    /// What waits in the trash, what was removed first in front.
    pub fn trashed_paths(&self) -> (records: Vec<PathRecord>)
        requires
            self@.ok(),
        ensures
            crate::tables::lists_trash(records.deep_view(), self@.trash),
    {
        let ghost rows = self@.trash;
        let ghost chosen = |i: int| true;
        let ghost key = |i: int| KeyView { rank: rows[i].removed_at, name: rows[i].id };
        let ghost item = |i: int| rows[i].path_record();
        let mut keys: Vec<Key> = Vec::new();
        let mut i: usize = 0;
        while i < self.trash.len()
            invariant
                i <= self.trash@.len(),
                rows == self@.trash,
                rows == self.trash.deep_view(),
                key == (|i: int| KeyView { rank: rows[i].removed_at, name: rows[i].id }),
                keys@.len() == i,
                forall|k: int| 0 <= k < i ==> #[trigger] keys@[k].deep_view() == key(k),
            decreases self.trash@.len() - i,
        {
            assert(rows[i as int] == self.trash@[i as int].deep_view());
            keys.push(
                Key { rank: self.trash[i].removed_at as i128, name: self.trash[i].id.clone() },
            );
            i += 1;
        }
        let ghost places = Seq::new(rows.len(), |at: int| at);
        proof {
            assert forall|a: int, b: int| 0 <= a < b < keys@.len() implies (
            #[trigger] keys@[a]).name@ != (#[trigger] keys@[b]).name@ by {
                assert(keys@[a].deep_view() == key(a));
                assert(keys@[b].deep_view() == key(b));
            }
            assert(keys.deep_view() =~= places.map_values(key));
        }
        let order = sort(&keys);
        let ghost sorted = order@.map_values(|at: usize| at as int);
        let mut records: Vec<PathRecord> = Vec::new();
        let mut k: usize = 0;
        while k < order.len()
            invariant
                k <= order@.len(),
                rows == self@.trash,
                rows == self.trash.deep_view(),
                sorted == order@.map_values(|at: usize| at as int),
                places == Seq::new(rows.len(), |at: int| at),
                keys@.len() == rows.len(),
                crate::order::is_order(keys.deep_view(), sorted),
                item == (|i: int| rows[i].path_record()),
                records@.len() == k,
                forall|a: int|
                    0 <= a < k ==> #[trigger] records@[a].deep_view() == item(places[sorted[a]]),
            decreases order@.len() - k,
        {
            assert(sorted[k as int] == order@[k as int] as int);
            let at = order[k];
            assert(rows[at as int] == self.trash@[at as int].deep_view());
            records.push(self.trash[at].path_record());
            k += 1;
        }
        proof {
            assert forall|a: int| 0 <= a < rows.len() && #[trigger] chosen(a) implies places.contains(
                a,
            ) by {
                assert(places[a] == a);
            }
            crate::tables::lemma_sorted_lists(
                records.deep_view(),
                places,
                sorted,
                keys.deep_view(),
                rows.len() as int,
                chosen,
                key,
                item,
            );
        }
        records
    }

    /// All workspaces in use.
    pub fn active_paths(&self) -> (records: Vec<PathRecord>)
        ensures
            records.deep_view() == self@.rifts.map_values(|row: RiftView| row.path_record()),
    {
        let mut records: Vec<PathRecord> = Vec::new();
        let mut i: usize = 0;
        while i < self.rifts.len()
            invariant
                i <= self.rifts@.len(),
                self@.rifts == self.rifts.deep_view(),
                records@.len() == i,
                forall|k: int|
                    0 <= k < i ==> #[trigger] records@[k].deep_view()
                        == self@.rifts[k].path_record(),
            decreases self.rifts@.len() - i,
        {
            records.push(self.rifts[i].path_record());
            i += 1;
        }
        assert(records.deep_view() =~= self@.rifts.map_values(
            |row: RiftView| row.path_record(),
        ));
        records
    }

    /// Removes a workspace with all that descend from it.
    pub fn delete_active(&mut self, id: &RiftId)
        requires
            old(self)@.ok(),
        ensures
            final(self)@ == old(self)@.without_rift(id@),
            final(self)@.ok(),
    {
        proof {
            crate::tables::lemma_without_rift_ok(self@, id@);
        }
        let top = id.to_string();
        let marks = depths(&self.rifts, &top);
        let ghost rows = self@.rifts;
        let mut left: Vec<RiftRow> = Vec::new();
        let mut i: usize = 0;
        assert(left.deep_view() =~= Seq::<RiftView>::empty());
        while i < self.rifts.len()
            invariant
                i <= self.rifts@.len(),
                rows == self.rifts.deep_view(),
                marks@.len() == rows.len(),
                forall|k: int|
                    0 <= k < marks@.len() ==> match #[trigger] marks@[k] {
                        Some(generations) => crate::tables::depth(rows, k, id@) == Some(
                            generations as nat,
                        ),
                        None => crate::tables::depth(rows, k, id@) is None,
                    },
                left.deep_view() == crate::tables::remaining(rows, id@, i as int),
            decreases self.rifts@.len() - i,
        {
            let ghost before = left.deep_view();
            assert(rows[i as int] == self.rifts@[i as int].deep_view());
            if marks[i].is_none() {
                left.push(self.rifts[i].clone());
                assert(left.deep_view() =~= before.push(rows[i as int]));
            }
            i += 1;
        }
        self.rifts = left;
    }

    /// Takes a workspace out of the trash for good.
    pub fn delete_trash(&mut self, id: &RiftId)
        requires
            old(self)@.ok(),
        ensures
            final(self)@ == old(self)@.without_trash(id@),
            final(self)@.ok(),
    {
        proof {
            crate::tables::lemma_other_trash_ok(self@.trash, id@);
        }
        let text = id.to_string();
        let ghost rows = self@.trash;
        let mut left: Vec<TrashRow> = Vec::new();
        let mut i: usize = 0;
        proof {
            reveal(Seq::filter);
            assert(rows.take(0) =~= Seq::empty());
            assert(left.deep_view() =~= Seq::<TrashView>::empty());
        }
        while i < self.trash.len()
            invariant
                i <= self.trash@.len(),
                rows == self.trash.deep_view(),
                text@ == id@,
                left.deep_view() == crate::tables::other_trash(rows.take(i as int), id@),
            decreases self.trash@.len() - i,
        {
            let ghost before = left.deep_view();
            proof {
                reveal(Seq::filter);
                assert(rows[i as int] == self.trash@[i as int].deep_view());
                assert(rows.take(i + 1).drop_last() =~= rows.take(i as int));
            }
            if self.trash[i].id != text {
                left.push(self.trash[i].clone());
                assert(left.deep_view() =~= before.push(rows[i as int]));
            }
            i += 1;
        }
        assert(rows.take(i as int) =~= rows);
        self.trash = left;
    }

    /// Removes workspaces with all that descend from them.
    pub fn delete_active_records(&mut self, rows: &Vec<PathRecord>)
        requires
            old(self)@.ok(),
        ensures
            final(self)@ == old(self)@.without_all(crate::tables::listed_ids(rows.deep_view())),
            final(self)@.ok(),
    {
        let ghost ids = crate::tables::listed_ids(rows.deep_view());
        let mut i: usize = 0;
        assert(ids.skip(0) =~= ids);
        while i < rows.len()
            invariant
                i <= rows@.len(),
                ids == crate::tables::listed_ids(rows.deep_view()),
                self@.ok(),
                old(self)@.without_all(ids) == self@.without_all(ids.skip(i as int)),
            decreases rows@.len() - i,
        {
            proof {
                assert(ids.skip(i as int)[0] == rows@[i as int].id@);
                assert(ids.skip(i as int).drop_first() =~= ids.skip(i + 1));
            }
            self.delete_active(&rows[i].id);
            i += 1;
        }
    }

    fn trash_one(&mut self, moved: &MovedRecord, now: i64) -> (result: Result<(), Error>)
        requires
            old(self)@.ok(),
        ensures
            final(self)@.ok(),
            result is Ok ==> old(self)@.trash_one(moved.deep_view(), now as int) == Ok::<
                Tables,
                ErrorView,
            >(final(self)@),
            result matches Err(error) ==> old(self)@.trash_one(moved.deep_view(), now as int)
                == Err::<Tables, ErrorView>(error@),
    {
        let text = match path_text(&moved.trash_path) {
            Ok(text) => text,
            Err(error) => return Err(error),
        };
        let count = self.rifts.len();
        let id = moved.id.to_string();
        if let Some(at) = find_rift(&self.rifts, &id, count) {
            assert(self@.rifts[at as int] == self.rifts@[at as int].deep_view());
            proof {
                crate::tables::lemma_find_before(self@.rifts, id@, count as int);
            }
            let row = TrashRow {
                id: self.rifts[at].id.clone(),
                path: text,
                removed_at: now,
                shared_git_dir: copy_text(&self.rifts[at].shared_git_dir),
                git_worktree_dir: copy_text(&self.rifts[at].git_worktree_dir),
            };
            if let Err(error) = self.add_trash(row) {
                return Err(error);
            }
        }
        self.delete_active(&moved.id);
        Ok(())
    }

    /// Moves workspaces to the trash, each at its time: all of them, or none.
    pub fn trash_moved_at(&mut self, moved: &Vec<MovedRecord>, times: &Vec<i64>) -> (result: Result<
        (),
        Error,
    >)
        requires
            old(self)@.ok(),
            moved@.len() == times@.len(),
        ensures
            final(self)@.ok(),
            did(
                old(self)@,
                final(self)@,
                result,
                old(self)@.trash_all(
                    moved.deep_view(),
                    as_times(times@),
                ),
            ),
    {
        let ghost wanted = moved.deep_view();
        let ghost stamps = as_times(times@);
        let mut next = Registry {
            rifts: copy_rifts(&self.rifts),
            trash: copy_trash(&self.trash),
        };
        let mut i: usize = 0;
        proof {
            assert(wanted.skip(0) =~= wanted);
            assert(stamps.skip(0) =~= stamps);
        }
        while i < moved.len()
            invariant
                i <= moved@.len() == times@.len(),
                wanted == moved.deep_view(),
                stamps == as_times(times@),
                next@.ok(),
                self@ == old(self)@,
                self@.ok(),
                old(self)@.trash_all(wanted, stamps) == next@.trash_all(
                    wanted.skip(i as int),
                    stamps.skip(i as int),
                ),
            decreases moved@.len() - i,
        {
            proof {
                assert(wanted.skip(i as int)[0] == moved@[i as int].deep_view());
                assert(stamps.skip(i as int)[0] == times@[i as int] as int);
                assert(wanted.skip(i as int).drop_first() =~= wanted.skip(i + 1));
                assert(stamps.skip(i as int).drop_first() =~= stamps.skip(i + 1));
            }
            if let Err(error) = next.trash_one(&moved[i], times[i]) {
                return Err(error);
            }
            i += 1;
        }
        *self = next;
        Ok(())
    }

    /// Moves workspaces to the trash now: all of them, or none.
    pub fn trash_moved(&mut self, moved: &Vec<MovedRecord>) -> (result: Result<(), Error>)
        requires
            old(self)@.ok(),
        ensures
            final(self)@.ok(),
            exists|times: Seq<i64>|
                times.len() == moved@.len() && all_read(times) && did(
                    old(self)@,
                    final(self)@,
                    result,
                    old(self)@.trash_all(
                        moved.deep_view(),
                        #[trigger] as_times(times),
                    ),
                ),
    {
        let mut times: Vec<i64> = Vec::new();
        while times.len() < moved.len()
            invariant
                times@.len() <= moved@.len(),
                all_read(times@),
            decreases moved@.len() - times@.len(),
        {
            times.push(timestamp());
        }
        let result = self.trash_moved_at(moved, &times);
        assert(did(
            old(self)@,
            self@,
            result,
            old(self)@.trash_all(
                moved.deep_view(),
                as_times(times@),
            ),
        ));
        result
    }
}

} // verus!
