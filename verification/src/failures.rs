//! What becomes of a failure: an operation that meets one makes no further request and hands it on.

use crate::conversations as say;
use crate::conversations::Exchange;
use crate::dialogue::{EntryKind, ReplyView, RequestView, Run, Talk};
use crate::error::{ErrorView, FailureKind, FailureView};
use crate::worktree::{HeadStateView, StepView};
use vstd::prelude::*;
use vstd::utf8::*;

verus! {

/// Whether a failure is no reason to stop. A question whether something is there is answered by it, a
/// setting may be missing, a file that is read may not exist, and a rename may have to become a copy.
/// An operation that cleans up after itself goes on, too, where that or what it cleans up after
/// fails.
pub open spec fn excused(cleaning: bool, request: RequestView, failure: FailureView) -> bool {
    match request {
        RequestView::Exists(_) => true,
        RequestView::IsDir(_) => true,
        RequestView::HeadCommit(_) => true,
        RequestView::GitVisibly(_, _) => true,
        RequestView::Inspect(_) => failure.kind == FailureKind::NotFound,
        RequestView::ReadText(_) => failure.kind == FailureKind::NotFound,
        RequestView::Rename(_, _) => cleaning || failure.kind == FailureKind::CrossesDevices,
        RequestView::CopyTree(_, _) => cleaning,
        RequestView::RemoveTree(_) => cleaning,
        RequestView::RemoveDir(_) => cleaning,
        RequestView::WriteText(_, _) => cleaning,
        _ => false,
    }
}

/// Whether a request is a Git command that has to end well. Only the one that asks for the commit of
/// `HEAD` need not: there may be none.
pub open spec fn has_to_end_well(request: RequestView) -> bool {
    request matches RequestView::Git(_, args) && args != seq![
        "rev-parse"@,
        "--verify"@,
        "HEAD^{commit}"@,
    ]
}

/// Whether an answer is a failure at which an operation has to stop.
pub open spec fn breaks(cleaning: bool, request: RequestView, reply: ReplyView) -> bool {
    match reply {
        ReplyView::Failed(failure) => !excused(cleaning, request, failure),
        ReplyView::Printed(output) => !output.success && has_to_end_well(request),
        _ => false,
    }
}

/// Whether a result is that of a failure: what the operating system said, or some error where a Git
/// command did not end well.
pub open spec fn handed_on<T>(reply: ReplyView, out: Option<Result<T, ErrorView>>) -> bool {
    match reply {
        ReplyView::Failed(failure) => out == Some(Err::<T, ErrorView>(ErrorView::Io(failure))),
        _ => out is Some && out->0 is Err,
    }
}

/// Whether an operation, on the answers that it got, stopped at the first failure: nothing was asked
/// for behind it, and the failure became the result.
pub open spec fn heeds<T>(cleaning: bool, talk: Talk, run: Run<T>) -> bool {
    let asked = run.talk.asked.len() - talk.asked.len();
    let used = talk.rest.len() - run.talk.rest.len();
    &&& 0 <= used <= asked <= used + 1
    &&& run.talk.asked.take(talk.asked.len() as int) == talk.asked
    &&& run.talk.rest == talk.rest.skip(used)
    &&& asked > used ==> run.out is None
    &&& forall|k: int|
        0 <= k < used && breaks(
            cleaning,
            run.talk.asked[talk.asked.len() + k],
            #[trigger] talk.rest[k],
        ) ==> k == asked - 1 && handed_on(talk.rest[k], run.out)
}

/// One request.
proof fn lemma_asked<T>(cleaning: bool, talk: Talk, request: RequestView, run: Run<T>)
    requires
        run.talk == talk.after(request),
        match talk.next_reply() {
            None => run.out is None,
            Some(reply) => breaks(cleaning, request, reply) ==> handed_on(reply, run.out),
        },
    ensures
        heeds(cleaning, talk, run),
{
    let used = talk.rest.len() - run.talk.rest.len();
    assert(run.talk.asked.take(talk.asked.len() as int) =~= talk.asked);
    assert(run.talk.rest =~= talk.rest.skip(used));
}

/// No request.
proof fn lemma_quiet<T>(cleaning: bool, run: Run<T>)
    ensures
        heeds(cleaning, run.talk, run),
{
    assert(run.talk.asked.take(run.talk.asked.len() as int) =~= run.talk.asked);
    assert(run.talk.rest =~= run.talk.rest.skip(0));
}

/// One part of an operation behind another.
proof fn lemma_follows<A, B>(cleaning: bool, talk: Talk, first: Run<A>, whole: Run<B>)
    requires
        heeds(cleaning, talk, first),
        first.out is None ==> whole == first.talk.waiting::<B>(),
        first.out matches Some(Err(error)) ==> whole == first.talk.ready::<B>(Err(error)),
        first.out matches Some(Ok(_)) ==> heeds(cleaning, first.talk, whole),
    ensures
        heeds(cleaning, talk, whole),
{
    if first.out matches Some(Ok(_)) {
        let a = first.talk.asked.len() - talk.asked.len();
        let u = talk.rest.len() - first.talk.rest.len();
        let used = talk.rest.len() - whole.talk.rest.len();
        assert(a == u);
        assert(whole.talk.asked.take(talk.asked.len() as int) =~= talk.asked) by {
            assert(talk.asked =~= first.talk.asked.take(talk.asked.len() as int));
            assert(first.talk.asked =~= whole.talk.asked.take(first.talk.asked.len() as int));
        }
        assert(whole.talk.rest =~= talk.rest.skip(used));
        assert forall|k: int|
            0 <= k < used && breaks(
                cleaning,
                whole.talk.asked[talk.asked.len() + k],
                #[trigger] talk.rest[k],
            ) implies k == whole.talk.asked.len() - talk.asked.len() - 1 && handed_on(
            talk.rest[k],
            whole.out,
        ) by {
            if k < u {
                let before = first.talk.asked;
                assert(before == whole.talk.asked.take(before.len() as int));
                assert(before[talk.asked.len() + k] == whole.talk.asked[talk.asked.len() + k]);
            } else {
                assert(first.talk.rest[k - u] == talk.rest[k]);
                assert(first.talk.asked.len() + (k - u) == talk.asked.len() + k);
            }
        }
    }
}

/// A Git command that has to end well.
proof fn lemma_command(
    cleaning: bool,
    place: crate::dialogue::PlaceView,
    args: Seq<Seq<char>>,
    complaint: Seq<char>,
    talk: Talk,
)
    ensures
        heeds(cleaning, talk, crate::git::command_run(place, args, complaint, talk)),
{
    let request = RequestView::Git(place, args);
    let run = crate::git::command_run(place, args, complaint, talk);
    lemma_asked(cleaning, talk, request, run);
}

proof fn lemma_git_path(cleaning: bool, path: Seq<u8>, flag: Seq<char>, talk: Talk)
    ensures
        heeds(cleaning, talk, crate::git::git_path_run(path, flag, talk)),
{
    let place = crate::dialogue::PlaceView::WorkTree(path);
    let args = seq!["rev-parse"@, "--path-format=absolute"@, flag];
    let complaint = "failed to resolve Git path with "@ + flag;
    lemma_command(cleaning, place, args, complaint, talk);
    let first = crate::git::command_run(place, args, complaint, talk);
    let whole = crate::git::git_path_run(path, flag, talk);
    lemma_quiet(cleaning, whole);
    lemma_follows(cleaning, talk, first, whole);
}

proof fn lemma_dirs(cleaning: bool, path: Seq<u8>, talk: Talk)
    ensures
        heeds(cleaning, talk, crate::git::resolve_dirs_run(path, talk)),
{
    let request = RequestView::Exists(crate::path::child(path, ".git"@));
    let there = talk.ask_flag(request);
    lemma_asked(cleaning, talk, request, there);
    let own = crate::git::git_path_run(path, "--git-dir"@, there.talk);
    lemma_git_path(cleaning, path, "--git-dir"@, there.talk);
    let common = crate::git::git_path_run(path, "--git-common-dir"@, own.talk);
    lemma_git_path(cleaning, path, "--git-common-dir"@, own.talk);
    let whole = crate::git::resolve_dirs_run(path, talk);
    lemma_quiet(cleaning, whole);
    if there.out == Some(Ok::<bool, ErrorView>(true)) {
        if own.out matches Some(Ok(_)) {
            lemma_follows(cleaning, own.talk, common, whole);
        }
        lemma_follows(cleaning, there.talk, own, whole);
    }
    lemma_follows(cleaning, talk, there, whole);
}

proof fn lemma_states(git_dir: Seq<u8>, from: int, talk: Talk)
    ensures
        heeds(false, talk, crate::git::no_state_run(git_dir, from, talk)),
    decreases crate::git::busy_states().len() - from,
{
    let whole = crate::git::no_state_run(git_dir, from, talk);
    if from >= crate::git::busy_states().len() {
        lemma_quiet(false, whole);
    } else {
        let request = RequestView::Exists(
            crate::path::child(git_dir, crate::git::busy_states()[from]),
        );
        let asked = talk.ask_flag(request);
        lemma_asked(false, talk, request, asked);
        lemma_quiet(false, whole);
        lemma_states(git_dir, from + 1, asked.talk);
        lemma_follows(false, talk, asked, whole);
    }
}

proof fn lemma_safe_state(path: Seq<u8>, talk: Talk)
    ensures
        heeds(false, talk, crate::git::check_safe_state_run(path, talk)),
{
    let dirs = crate::git::resolve_dirs_run(path, talk);
    let whole = crate::git::check_safe_state_run(path, talk);
    lemma_dirs(false, path, talk);
    lemma_quiet(false, whole);
    if let Some(Ok(Some(found))) = dirs.out {
        lemma_states(found.git_dir, 0, dirs.talk);
    }
    lemma_follows(false, talk, dirs, whole);
}

/// A check of a source stops at the first failure and hands it on.
pub proof fn failed_check_ends_with_the_failure(path: Seq<u8>, talk: Talk)
    ensures
        heeds(false, talk, crate::git::resolve_dirs_run(path, talk)),
        heeds(false, talk, crate::git::check_safe_state_run(path, talk)),
        heeds(false, talk, crate::git::check_source_run(path, talk)),
        heeds(false, talk, crate::git::check_source_allow_worktree_run(path, talk)),
{
    let git = crate::path::child(path, ".git"@);
    let there = talk.ask_flag(RequestView::Exists(git));
    lemma_asked(false, talk, RequestView::Exists(git), there);
    lemma_dirs(false, path, talk);
    lemma_safe_state(path, talk);
    let strict = crate::git::check_source_run(path, talk);
    lemma_quiet(false, strict);
    if there.out == Some(Ok::<bool, ErrorView>(true)) {
        let directory = there.talk.ask_flag(RequestView::IsDir(git));
        lemma_asked(false, there.talk, RequestView::IsDir(git), directory);
        let safe = crate::git::check_safe_state_run(path, directory.talk);
        lemma_safe_state(path, directory.talk);
        if directory.out == Some(Ok::<bool, ErrorView>(true)) {
            lemma_follows(false, directory.talk, safe, strict);
        }
        lemma_follows(false, there.talk, directory, strict);
    }
    lemma_follows(false, talk, there, strict);
    let linked = crate::git::check_source_allow_worktree_run(path, talk);
    lemma_quiet(false, linked);
    if there.out == Some(Ok::<bool, ErrorView>(true)) {
        let dirs = crate::git::resolve_dirs_run(path, there.talk);
        lemma_dirs(false, path, there.talk);
        let safe = crate::git::check_safe_state_run(path, dirs.talk);
        lemma_safe_state(path, dirs.talk);
        if dirs.out matches Some(Ok(Some(_))) {
            lemma_follows(false, dirs.talk, safe, linked);
        }
        lemma_follows(false, there.talk, dirs, linked);
    }
    lemma_follows(false, talk, there, linked);
}

proof fn lemma_marker(common_dir: Seq<u8>, talk: Talk)
    ensures
        heeds(false, talk, crate::git::add_marker_run(common_dir, talk)),
{
    let info = crate::path::child(common_dir, "info"@);
    let exclude = crate::path::child(info, "exclude"@);
    let made = talk.perform(RequestView::CreateDirs(info));
    lemma_asked(false, talk, RequestView::CreateDirs(info), made);
    let read = crate::git::read_or_empty_run(exclude, made.talk);
    lemma_asked(false, made.talk, RequestView::ReadText(exclude), read);
    let whole = crate::git::add_marker_run(common_dir, talk);
    lemma_quiet(false, whole);
    if made.out matches Some(Ok(_)) {
        if let Some(Ok(existing)) = read.out {
            let write = RequestView::WriteText(exclude, crate::git::with_marker(existing));
            lemma_asked(false, read.talk, write, read.talk.perform(write));
        }
        lemma_follows(false, made.talk, read, whole);
    }
    lemma_follows(false, talk, made, whole);
}

proof fn lemma_detach(path: Seq<u8>, commit: Seq<char>, talk: Talk)
    ensures
        heeds(false, talk, crate::git::detach_at_run(path, commit, talk)),
{
    let dirs = crate::git::resolve_dirs_run(path, talk);
    let whole = crate::git::detach_at_run(path, commit, talk);
    lemma_dirs(false, path, talk);
    lemma_quiet(false, whole);
    if let Some(Ok(Some(found))) = dirs.out {
        let write = RequestView::WriteText(
            crate::path::child(found.git_dir, "HEAD"@),
            commit + "\n"@,
        );
        lemma_asked(false, dirs.talk, write, dirs.talk.perform(write));
    }
    lemma_follows(false, talk, dirs, whole);
}

/// Hiding the marker, and taking a copy off its branch, stop at the first failure and hand it on.
pub proof fn failed_preparation_ends_with_the_failure(path: Seq<u8>, talk: Talk)
    ensures
        heeds(false, talk, crate::git::hide_marker_run(path, talk)),
        heeds(false, talk, crate::git::detach_destination_run(path, talk)),
{
    let dirs = crate::git::resolve_dirs_run(path, talk);
    let hiding = crate::git::hide_marker_run(path, talk);
    lemma_dirs(false, path, talk);
    lemma_quiet(false, hiding);
    if let Some(Ok(Some(found))) = dirs.out {
        lemma_marker(found.common_dir, dirs.talk);
    }
    lemma_follows(false, talk, dirs, hiding);
    let found = talk.ask_commit(RequestView::HeadCommit(path));
    lemma_asked(false, talk, RequestView::HeadCommit(path), found);
    let whole = crate::git::detach_destination_run(path, talk);
    lemma_quiet(false, whole);
    let request = RequestView::Git(
        crate::dialogue::PlaceView::WorkTree(path),
        crate::git::head_commit_args(),
    );
    if let Some(Ok(Some(commit))) = found.out {
        lemma_detach(path, commit, found.talk);
    } else if let Some(Ok(None)) = found.out {
        let printed = found.talk.ask_output(request);
        lemma_asked(false, found.talk, request, printed);
        if let Some(Ok(output)) = printed.out {
            lemma_detach(path, crate::git::printed(output.stdout), printed.talk);
        }
        lemma_follows(false, found.talk, printed, whole);
    }
    lemma_follows(false, talk, found, whole);
}

proof fn lemma_step(cleaning: bool, step: StepView, talk: Talk)
    ensures
        heeds(cleaning, talk, crate::worktree::step_run(step, talk)),
{
    let whole = crate::worktree::step_run(step, talk);
    match step {
        StepView::Act(request) => {
            lemma_asked(cleaning, talk, request, whole);
        },
        StepView::Command(place, args, complaint) => {
            lemma_command(cleaning, place, args, complaint, talk);
            let first = crate::git::command_run(place, args, complaint, talk);
            lemma_quiet(cleaning, whole);
            lemma_follows(cleaning, talk, first, whole);
        },
    }
}

proof fn lemma_steps(cleaning: bool, steps: Seq<StepView>, talk: Talk)
    ensures
        heeds(cleaning, talk, crate::worktree::steps_run(steps, talk)),
    decreases steps.len(),
{
    let whole = crate::worktree::steps_run(steps, talk);
    if steps.len() == 0 {
        lemma_quiet(cleaning, whole);
    } else {
        let first = crate::worktree::step_run(steps[0], talk);
        lemma_step(cleaning, steps[0], talk);
        lemma_steps(cleaning, steps.drop_first(), first.talk);
        lemma_follows(cleaning, talk, first, whole);
    }
}

proof fn lemma_move(cleaning: bool, source: Seq<u8>, destination: Seq<u8>, talk: Talk)
    ensures
        heeds(cleaning, talk, crate::worktree::move_dir_run(source, destination, talk)),
{
    let temporary = crate::path::with_extension_of(destination, encode_utf8("rift-restore-tmp"@));
    let rename = RequestView::Rename(source, destination);
    let moved = talk.perform(rename);
    let whole = crate::worktree::move_dir_run(source, destination, talk);
    lemma_asked(cleaning, talk, rename, moved);
    if let Some(Err(ErrorView::Io(failure))) = moved.out {
        if failure.kind == FailureKind::CrossesDevices {
            let taken = moved.talk.ask_flag(RequestView::Exists(temporary));
            lemma_asked(cleaning, moved.talk, RequestView::Exists(temporary), taken);
            lemma_quiet(cleaning, whole);
            let steps = seq![
                StepView::Act(RequestView::CopyTree(source, temporary)),
                StepView::Act(RequestView::Rename(temporary, destination)),
                StepView::Act(RequestView::RemoveTree(source)),
            ];
            lemma_steps(cleaning, steps, taken.talk);
            lemma_follows(cleaning, moved.talk, taken, whole);
            let going_on: Run<()> = moved.talk.ready(Ok(()));
            lemma_asked(cleaning, talk, rename, going_on);
            lemma_follows(cleaning, talk, going_on, whole);
        }
    }
}

/// Moving a directory, and bringing a repository back over a pointer, stop at the first failure and
/// hand it on.
pub proof fn failed_move_ends_with_the_failure(source: Seq<u8>, destination: Seq<u8>, talk: Talk)
    ensures
        heeds(false, talk, crate::worktree::move_dir_run(source, destination, talk)),
        heeds(false, talk, crate::worktree::restore_git_dir_run(source, destination, talk)),
{
    lemma_move(false, source, destination, talk);
    let there = talk.ask_flag(RequestView::Exists(destination));
    lemma_asked(false, talk, RequestView::Exists(destination), there);
    let whole = crate::worktree::restore_git_dir_run(source, destination, talk);
    lemma_quiet(false, whole);
    if there.out == Some(Ok::<bool, ErrorView>(true)) {
        let seen = there.talk.ask_kind(RequestView::Inspect(destination));
        lemma_asked(false, there.talk, RequestView::Inspect(destination), seen);
        let remove = RequestView::RemoveFile(destination);
        let removed = seen.talk.perform(remove);
        lemma_asked(false, seen.talk, remove, removed);
        lemma_move(false, source, destination, removed.talk);
        if let Some(Ok(kind)) = seen.out {
            if kind != EntryKind::Directory {
                lemma_follows(false, seen.talk, removed, whole);
            }
        }
        lemma_follows(false, there.talk, seen, whole);
    } else {
        lemma_move(false, source, destination, there.talk);
    }
    lemma_follows(false, talk, there, whole);
}

proof fn lemma_toplevel(path: Seq<u8>, talk: Talk)
    ensures
        heeds(false, talk, crate::worktree::ensure_toplevel_run(path, talk)),
{
    let place = crate::dialogue::PlaceView::WorkTree(path);
    let args = seq!["rev-parse"@, "--show-toplevel"@];
    let complaint = "failed to resolve Git root"@;
    lemma_command(false, place, args, complaint, talk);
    let printed = crate::git::command_run(place, args, complaint, talk);
    let whole = crate::worktree::ensure_toplevel_run(path, talk);
    lemma_quiet(false, whole);
    if let Some(Ok(stdout)) = printed.out {
        let look = RequestView::Canonicalize(path);
        let here = printed.talk.ask_location(look);
        lemma_asked(false, printed.talk, look, here);
        if here.out matches Some(Ok(_)) {
            let look = RequestView::Canonicalize(encode_utf8(crate::git::printed(stdout)));
            let top = here.talk.ask_location(look);
            lemma_asked(false, here.talk, look, top);
            lemma_follows(false, here.talk, top, whole);
        }
        lemma_follows(false, printed.talk, here, whole);
    }
    lemma_follows(false, talk, printed, whole);
}

/// An initialization whose check fails is answered with what the check says, and asks for nothing
/// behind it; the check itself stops at its first failure and hands it on.
pub proof fn failed_check_ends_the_initialization(
    path: Seq<u8>,
    root_id: Seq<char>,
    repo_storage: Seq<u8>,
    talk: Talk,
)
    requires
        talk.next_reply() == Some(ReplyView::Kind(EntryKind::Directory)),
    ensures
        ({
            let begun = talk.after(RequestView::Inspect(crate::path::child(path, ".git"@)));
            let check = crate::worktree::ensure_toplevel_run(path, begun);
            &&& heeds(false, begun, check)
            &&& check.out matches Some(Err(error)) ==> crate::worktree::initialize_root_run(
                path,
                root_id,
                repo_storage,
                talk,
            ) == check.talk.ready::<Seq<u8>>(Err(error))
        }),
{
    lemma_toplevel(path, talk.after(RequestView::Inspect(crate::path::child(path, ".git"@))));
}

proof fn lemma_head(path: Seq<u8>, talk: Talk)
    ensures
        heeds(false, talk, crate::worktree::head_state_run(path, talk)),
{
    let request = RequestView::Git(
        crate::dialogue::PlaceView::WorkTree(path),
        crate::git::head_commit_args(),
    );
    let printed = talk.ask_output(request);
    lemma_asked(false, talk, request, printed);
    let whole = crate::worktree::head_state_run(path, talk);
    lemma_quiet(false, whole);
    if let Some(Ok(output)) = printed.out {
        if !output.success {
            let dirs = crate::git::resolve_dirs_run(path, printed.talk);
            lemma_dirs(false, path, printed.talk);
            if let Some(Ok(Some(found))) = dirs.out {
                let read = RequestView::ReadText(crate::path::child(found.git_dir, "HEAD"@));
                let contents = dirs.talk.ask_text(read);
                lemma_asked(false, dirs.talk, read, contents);
                lemma_follows(false, dirs.talk, contents, whole);
            }
            lemma_follows(false, printed.talk, dirs, whole);
        }
    }
    lemma_follows(false, talk, printed, whole);
}

/// Reading `HEAD` stops at the first failure and hands it on; the check for a commit and a
/// registration that begin with it do so, too.
pub proof fn failed_reading_of_head_is_handed_on(
    path: Seq<u8>,
    root_git_dir: Seq<u8>,
    destination: Seq<u8>,
    id: Seq<char>,
    talk: Talk,
)
    ensures
        ({
            let head = crate::worktree::head_state_run(path, talk);
            &&& heeds(false, talk, head)
            &&& heeds(false, talk, crate::worktree::ensure_head_commit_run(path, talk))
            &&& head.out matches Some(Err(error)) ==> crate::worktree::register_cow_clone_run(
                root_git_dir,
                path,
                destination,
                id,
                talk,
            ) == head.talk.ready::<Seq<u8>>(Err(error))
        }),
{
    let head = crate::worktree::head_state_run(path, talk);
    let check = crate::worktree::ensure_head_commit_run(path, talk);
    lemma_head(path, talk);
    lemma_quiet(false, check);
    lemma_follows(false, talk, head, check);
}

proof fn lemma_removed_copy(destination: Seq<u8>, talk: Talk)
    ensures
        heeds(false, talk, crate::worktree::remove_copied_run(destination, talk)),
{
    let git = crate::path::child(destination, ".git"@);
    let seen = talk.ask_kind(RequestView::Inspect(git));
    lemma_asked(false, talk, RequestView::Inspect(git), seen);
    let whole = crate::worktree::remove_copied_run(destination, talk);
    let tree = RequestView::RemoveTree(git);
    let file = RequestView::RemoveFile(git);
    lemma_asked(false, seen.talk, tree, seen.talk.perform(tree));
    lemma_asked(false, seen.talk, file, seen.talk.perform(file));
    lemma_follows(false, talk, seen, whole);
}

proof fn lemma_index(source: Seq<u8>, git_dir: Seq<u8>, talk: Talk)
    ensures
        heeds(false, talk, crate::worktree::copy_source_index_run(source, git_dir, talk)),
{
    let dirs = crate::git::resolve_dirs_run(source, talk);
    let whole = crate::worktree::copy_source_index_run(source, git_dir, talk);
    lemma_dirs(false, source, talk);
    lemma_quiet(false, whole);
    if let Some(Ok(Some(found))) = dirs.out {
        let index = crate::path::child(found.git_dir, "index"@);
        let there = dirs.talk.ask_flag(RequestView::Exists(index));
        lemma_asked(false, dirs.talk, RequestView::Exists(index), there);
        let copy = RequestView::CopyFile(index, crate::path::child(git_dir, "index"@));
        let copied = there.talk.perform(copy);
        lemma_asked(false, there.talk, copy, copied);
        if there.out == Some(Ok::<bool, ErrorView>(true)) {
            lemma_follows(false, there.talk, copied, whole);
        }
        lemma_follows(false, dirs.talk, there, whole);
    }
    lemma_follows(false, talk, dirs, whole);
}

proof fn lemma_complete(
    root_git_dir: Seq<u8>,
    source: Seq<u8>,
    destination: Seq<u8>,
    git_dir: Seq<u8>,
    head: HeadStateView,
    talk: Talk,
)
    ensures
        heeds(
            false,
            talk,
            crate::worktree::complete_run(root_git_dir, source, destination, git_dir, head, talk),
        ),
{
    let copied = crate::worktree::copy_source_index_run(source, git_dir, talk);
    lemma_index(source, git_dir, talk);
    let indexed = crate::worktree::index_run(source, destination, git_dir, head, talk);
    lemma_quiet(false, indexed);
    if let HeadStateView::Commit(commit) = head {
        lemma_step(
            false,
            crate::worktree::worktree_step(
                destination,
                seq!["reset"@, "--mixed"@, "--quiet"@, commit],
            ),
            copied.talk,
        );
    }
    lemma_follows(false, talk, copied, indexed);
    let accept = crate::worktree::validate_step(destination);
    let accepted = crate::worktree::step_run(accept, indexed.talk);
    lemma_step(false, accept, indexed.talk);
    let list = crate::worktree::repository_step(
        root_git_dir,
        crate::worktree::worktree_list_args(),
    );
    lemma_step(false, list, accepted.talk);
    let whole = crate::worktree::complete_run(
        root_git_dir,
        source,
        destination,
        git_dir,
        head,
        talk,
    );
    if indexed.out matches Some(Ok(_)) {
        lemma_follows(false, indexed.talk, accepted, whole);
    }
    lemma_follows(false, talk, indexed, whole);
}

/// The work of a registration stops at the first failure and hands it on.
pub proof fn failed_registration_ends_with_the_failure(
    root_git_dir: Seq<u8>,
    source: Seq<u8>,
    destination: Seq<u8>,
    git_dir: Seq<u8>,
    head: HeadStateView,
    talk: Talk,
)
    ensures
        heeds(
            false,
            talk,
            crate::worktree::register_work_run(
                root_git_dir,
                source,
                destination,
                git_dir,
                head,
                talk,
            ),
        ),
{
    let whole = crate::worktree::register_work_run(
        root_git_dir,
        source,
        destination,
        git_dir,
        head,
        talk,
    );
    let made = talk.perform(RequestView::CreateDirs(git_dir));
    lemma_asked(false, talk, RequestView::CreateDirs(git_dir), made);
    let removed = crate::worktree::remove_copied_run(destination, made.talk);
    lemma_removed_copy(destination, made.talk);
    let steps = crate::worktree::link_steps(destination, git_dir, head);
    let linked = crate::worktree::steps_run(steps, removed.talk);
    lemma_steps(false, steps, removed.talk);
    lemma_complete(root_git_dir, source, destination, git_dir, head, linked.talk);
    if made.out matches Some(Ok(_)) {
        if removed.out matches Some(Ok(_)) {
            lemma_follows(false, removed.talk, linked, whole);
        }
        lemma_follows(false, made.talk, removed, whole);
    }
    lemma_follows(false, talk, made, whole);
}

/// Settling an inline repository stops at the first failure and hands it on; and once a repository is
/// back at its inline place, what settling says is what its return says.
pub proof fn failed_settling_is_handed_on(git: Seq<u8>, shared_git_dir: Seq<u8>, talk: Talk)
    ensures
        heeds(true, talk, crate::worktree::settle_inline_run(git, shared_git_dir, talk)),
        ({
            let moved = crate::worktree::move_dir_run(shared_git_dir, git, talk);
            moved.out matches Some(Ok(_)) ==> crate::worktree::bring_back_run(
                git,
                shared_git_dir,
                talk,
            ) == crate::worktree::settle_inline_run(git, shared_git_dir, moved.talk)
        }),
{
    let unset = RequestView::GitVisibly(
        crate::dialogue::PlaceView::GitDir(git),
        seq!["config"@, "--unset"@, "core.worktree"@],
    );
    let tried = talk.attempt(unset);
    lemma_asked(true, talk, unset, tried);
    let configured = crate::worktree::configure_inline_root_run(git, talk);
    lemma_step(true, crate::worktree::not_bare_step(git), tried.talk);
    lemma_follows(true, talk, tried, configured);
    let whole = crate::worktree::settle_inline_run(git, shared_git_dir, talk);
    let last = crate::worktree::remove_empty_parent_run(shared_git_dir, configured.talk);
    if let Some(parent) = crate::path::parent_of(shared_git_dir) {
        lemma_asked(true, configured.talk, RequestView::RemoveDir(parent), last);
    } else {
        lemma_quiet(true, last);
    }
    lemma_follows(true, talk, configured, whole);
}

/// A restoration that cannot look at what stands at the inline place, or cannot remove it, ends with
/// that failure; the store is not touched.
pub proof fn pointer_that_stays_ends_the_restoration(
    worktree: Seq<u8>,
    shared_git_dir: Seq<u8>,
    checked: Seq<Exchange>,
    kind: EntryKind,
    failure: FailureView,
)
    requires
        say::tells(
            |talk: Talk| crate::worktree::validate_restore_run(worktree, shared_git_dir, talk),
            checked,
            Ok(()),
        ),
        kind != EntryKind::Directory,
    ensures
        ({
            let git = crate::path::child(worktree, ".git"@);
            let restore = |talk: Talk|
                crate::worktree::restore_inline_root_run(worktree, shared_git_dir, talk);
            let wrong: Result<(), ErrorView> = Err(ErrorView::Io(failure));
            &&& say::tells(
                restore,
                checked + (seq![(RequestView::Exists(git), ReplyView::Flag(true))] + seq![
                    (RequestView::Inspect(git), ReplyView::Failed(failure)),
                ]),
                wrong,
            )
            &&& say::tells(
                restore,
                checked + (seq![(RequestView::Exists(git), ReplyView::Flag(true))] + (seq![
                    (RequestView::Inspect(git), ReplyView::Kind(kind)),
                ] + seq![(RequestView::RemoveFile(git), ReplyView::Failed(failure))])),
                wrong,
            )
        }),
{
    let git = crate::path::child(worktree, ".git"@);
    let restore = |talk: Talk|
        crate::worktree::restore_inline_root_run(worktree, shared_git_dir, talk);
    let validate = |talk: Talk|
        crate::worktree::validate_restore_run(worktree, shared_git_dir, talk);
    let wrong: Result<(), ErrorView> = Err(ErrorView::Io(failure));
    let failed = ReplyView::Failed(failure);
    let exists = RequestView::Exists(git);
    let inspect = RequestView::Inspect(git);
    let remove = RequestView::RemoveFile(git);
    let short = seq![(exists, ReplyView::Flag(true))] + seq![(inspect, failed)];
    assert forall|talk: Talk| #[trigger] say::has_answers(talk, checked + short) implies restore(
        talk,
    ) == say::spoken(talk, checked + short).ready(wrong) by {
        say::lemma_split(talk, checked, short);
        let valid: Result<(), ErrorView> = Ok(());
        assert(validate(talk) == say::spoken(talk, checked).ready(valid));
        let next = say::spoken(talk, checked);
        say::lemma_begin(next, exists, ReplyView::Flag(true), seq![(inspect, failed)]);
        say::lemma_one(next.after(exists), inspect, failed);
    }
    let rest = seq![(inspect, ReplyView::Kind(kind))] + seq![(remove, failed)];
    let long = seq![(exists, ReplyView::Flag(true))] + rest;
    assert forall|talk: Talk| #[trigger] say::has_answers(talk, checked + long) implies restore(
        talk,
    ) == say::spoken(talk, checked + long).ready(wrong) by {
        say::lemma_split(talk, checked, long);
        let valid: Result<(), ErrorView> = Ok(());
        assert(validate(talk) == say::spoken(talk, checked).ready(valid));
        let next = say::spoken(talk, checked);
        say::lemma_begin(next, exists, ReplyView::Flag(true), rest);
        let last = next.after(exists);
        say::lemma_begin(last, inspect, ReplyView::Kind(kind), seq![(remove, failed)]);
        say::lemma_one(last.after(inspect), remove, failed);
    }
}

/// Paths without a parent are refused by their names: a store before anything is asked for, and a
/// place for one once it is known that nothing stands there.
pub proof fn paths_without_a_parent_are_refused(
    path: Seq<u8>,
    lone: Seq<u8>,
    root_id: Seq<char>,
    final_git: Seq<u8>,
    no: ReplyView,
    talk: Talk,
)
    requires
        crate::path::parent_of(lone) is None,
        no != ReplyView::Flag(true),
    ensures
        crate::worktree::remove_shared_run(lone, root_id, talk) == talk.ready::<()>(
            Err(
                ErrorView::Path(
                    "shared Git dir has no parent: "@ + crate::foreign::lossy_text(lone),
                ),
            ),
        ),
        say::tells(
            |talk: Talk| crate::worktree::initialize_store_run(path, lone, final_git, talk),
            seq![(RequestView::Exists(lone), no)] + seq![
                (
                    RequestView::Exists(
                        crate::path::with_extension_of(lone, encode_utf8("tmp"@)),
                    ),
                    no,
                ),
            ],
            Err::<Seq<u8>, ErrorView>(
                ErrorView::Path(
                    "repository storage has no parent: "@ + crate::foreign::lossy_text(lone),
                ),
            ),
        ),
{
    let operation = |talk: Talk|
        crate::worktree::initialize_store_run(path, lone, final_git, talk);
    let staging = RequestView::Exists(crate::path::with_extension_of(lone, encode_utf8("tmp"@)));
    let first = RequestView::Exists(lone);
    let script = seq![(first, no)] + seq![(staging, no)];
    let wrong: Result<Seq<u8>, ErrorView> = Err(
        ErrorView::Path("repository storage has no parent: "@ + crate::foreign::lossy_text(lone)),
    );
    assert forall|talk: Talk| #[trigger] say::has_answers(talk, script) implies operation(talk)
        == say::spoken(talk, script).ready(wrong) by {
        say::lemma_begin(talk, first, no, seq![(staging, no)]);
        say::lemma_one(talk.after(first), staging, no);
    }
}

} // verus!
