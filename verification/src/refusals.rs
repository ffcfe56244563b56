//! What an operation leaves behind that refuses its task, or fails at it.

use crate::dialogue::{EntryKind, ReplyView, RequestView, Talk};
use crate::error::ErrorView;
use crate::worktree::{HeadStateView, StepView};
use vstd::prelude::*;
use vstd::utf8::*;

verus! {

/// A store that may not be removed is not even looked at.
pub proof fn refused_removal_asks_nothing(
    shared_git_dir: Seq<u8>,
    root_id: Seq<char>,
    talk: Talk,
)
    requires
        !crate::worktree::is_store_path(shared_git_dir, root_id),
    ensures
        ({
            let run = crate::worktree::remove_shared_run(shared_git_dir, root_id, talk);
            &&& run.talk == talk
            &&& run.out is Some
            &&& run.out->0 is Err
        }),
{
}

/// A store that may be removed is removed with the directory named after its root, and nothing
/// else is.
pub proof fn removal_concerns_the_home_of_the_store(
    shared_git_dir: Seq<u8>,
    root_id: Seq<char>,
    talk: Talk,
)
    requires
        crate::worktree::is_store_path(shared_git_dir, root_id),
        talk.rest.len() >= 2,
        talk.rest[0] == ReplyView::Flag(true),
        talk.rest[1] == ReplyView::Done,
    ensures
        ({
            let run = crate::worktree::remove_shared_run(shared_git_dir, root_id, talk);
            let home = crate::path::parent_of(shared_git_dir)->0;
            &&& run.out == Some(Ok::<(), ErrorView>(()))
            &&& run.talk.asked == talk.asked + seq![
                RequestView::Exists(home),
                RequestView::RemoveTree(home),
            ]
        }),
{
    let home = crate::path::parent_of(shared_git_dir)->0;
    let there = talk.ask_flag(RequestView::Exists(home));
    assert(there.talk.rest[0] == talk.rest[1]);
    let run = crate::worktree::remove_shared_run(shared_git_dir, root_id, talk);
    assert(run.talk.asked =~= talk.asked + seq![
        RequestView::Exists(home),
        RequestView::RemoveTree(home),
    ]);
}

/// A restoration that is refused at its check is answered with what the check says, and changes
/// nothing.
pub proof fn refused_restoration_changes_nothing(
    worktree: Seq<u8>,
    shared_git_dir: Seq<u8>,
    talk: Talk,
)
    requires
        ({
            let check = crate::worktree::validate_restore_run(worktree, shared_git_dir, talk);
            check.out is Some && check.out->0 is Err
        }),
    ensures
        ({
            let check = crate::worktree::validate_restore_run(worktree, shared_git_dir, talk);
            let run = crate::worktree::restore_inline_root_run(worktree, shared_git_dir, talk);
            &&& run.out == check.out
            &&& crate::replay::grows(talk, run.talk, crate::replay::reading())
        }),
{
    crate::replay::lemma_one_request();
    crate::replay::validate_restore(worktree, shared_git_dir);
}

/// The errors that a request or a Git command gives. None of them says that something stands in
/// the way.
proof fn lemma_step_errors(steps: Seq<StepView>, talk: Talk)
    ensures
        crate::worktree::steps_run(steps, talk).out matches Some(Err(error)) ==> !(error
            is AlreadyExists),
    decreases steps.len(),
{
    if steps.len() > 0 {
        let first = crate::worktree::step_run(steps[0], talk);
        lemma_step_errors(steps.drop_first(), first.talk);
    }
}

/// An initialization that is refused because something stands where a store would be changes
/// nothing.
pub proof fn refused_initialization_changes_nothing(
    path: Seq<u8>,
    root_id: Seq<char>,
    repo_storage: Seq<u8>,
    talk: Talk,
)
    requires
        crate::worktree::initialize_root_run(path, root_id, repo_storage, talk).out matches Some(
            Err(error),
        ) && error is AlreadyExists,
    ensures
        ({
            let run = crate::worktree::initialize_root_run(path, root_id, repo_storage, talk);
            let final_git = crate::worktree::shared_git_dir_of(repo_storage, root_id);
            &&& crate::replay::grows(talk, run.talk, crate::replay::reading())
            &&& crate::path::parent_of(final_git) matches Some(home) && run.out == Some(
                Err::<Seq<u8>, ErrorView>(ErrorView::AlreadyExists(home)),
            )
        }),
{
    let inline_git = crate::path::child(path, ".git"@);
    crate::replay::lemma_one_request();
    crate::replay::real_directory(inline_git);
    crate::replay::ensure_toplevel(path);
    let inside = crate::worktree::real_directory_run(inline_git, talk);
    let top = crate::worktree::ensure_toplevel_run(path, inside.talk);
    let final_git = crate::worktree::shared_git_dir_of(repo_storage, root_id);
    if let Some(final_parent) = crate::path::parent_of(final_git) {
        let staging_parent = crate::path::with_extension_of(final_parent, encode_utf8("tmp"@));
        let in_final = top.talk.ask_flag(RequestView::Exists(final_parent));
        let in_staging = in_final.talk.ask_flag(RequestView::Exists(staging_parent));
        assert(crate::replay::grows(top.talk, in_final.talk, crate::replay::reading()));
        assert(crate::replay::grows(in_final.talk, in_staging.talk, crate::replay::reading()));
        if let Some(repos) = crate::path::parent_of(final_parent) {
            let steps = crate::worktree::initialize_steps(
                path,
                repos,
                staging_parent,
                final_parent,
                final_git,
            );
            lemma_step_errors(steps, in_staging.talk);
        }
    }
}

proof fn lemma_registration_errors(
    root_git_dir: Seq<u8>,
    source: Seq<u8>,
    destination: Seq<u8>,
    git_dir: Seq<u8>,
    head: HeadStateView,
    talk: Talk,
)
    ensures
        crate::worktree::register_work_run(
            root_git_dir,
            source,
            destination,
            git_dir,
            head,
            talk,
        ).out matches Some(Err(error)) ==> !(error is AlreadyExists),
{
    let made = talk.perform(RequestView::CreateDirs(git_dir));
    let cleared = crate::worktree::remove_copied_run(destination, made.talk);
    let steps = crate::worktree::link_steps(destination, git_dir, head);
    lemma_step_errors(steps, cleared.talk);
    let linked = crate::worktree::steps_run(steps, cleared.talk);
    let indexed = crate::worktree::index_run(source, destination, git_dir, head, linked.talk);
    assert(indexed.out matches Some(Err(error)) ==> !(error is AlreadyExists));
}

/// A registration that is refused because the copy has metadata in the store already changes
/// nothing.
pub proof fn refused_registration_changes_nothing(
    root_git_dir: Seq<u8>,
    source: Seq<u8>,
    destination: Seq<u8>,
    id: Seq<char>,
    talk: Talk,
)
    requires
        crate::worktree::register_cow_clone_run(
            root_git_dir,
            source,
            destination,
            id,
            talk,
        ).out matches Some(Err(error)) && error is AlreadyExists,
    ensures
        ({
            let run = crate::worktree::register_cow_clone_run(
                root_git_dir,
                source,
                destination,
                id,
                talk,
            );
            let git_dir = crate::worktree::worktree_dir_of(root_git_dir, id);
            &&& crate::replay::grows(talk, run.talk, crate::replay::reading())
            &&& run.out == Some(Err::<Seq<u8>, ErrorView>(ErrorView::AlreadyExists(git_dir)))
        }),
{
    let git_dir = crate::worktree::worktree_dir_of(root_git_dir, id);
    crate::replay::lemma_one_request();
    crate::replay::head_state(source);
    let head = crate::worktree::head_state_run(source, talk);
    let there = head.talk.ask_flag(RequestView::Exists(git_dir));
    assert(crate::replay::grows(head.talk, there.talk, crate::replay::reading()));
    if let Some(Ok(state)) = head.out {
        lemma_registration_errors(
            root_git_dir,
            source,
            destination,
            git_dir,
            state,
            there.talk,
        );
    }
}

/// A registration that fails takes its metadata directory away again, and is answered with what
/// made it fail.
pub proof fn failed_registration_is_undone(
    root_git_dir: Seq<u8>,
    source: Seq<u8>,
    destination: Seq<u8>,
    git_dir: Seq<u8>,
    head: HeadStateView,
    talk: Talk,
    error: ErrorView,
)
    requires
        ({
            let work = crate::worktree::register_work_run(
                root_git_dir,
                source,
                destination,
                git_dir,
                head,
                talk,
            );
            &&& work.out == Some(Err::<(), ErrorView>(error))
            &&& work.talk.rest.len() >= 2
            &&& work.talk.rest[0] == ReplyView::Kind(EntryKind::Directory)
        }),
    ensures
        ({
            let work = crate::worktree::register_work_run(
                root_git_dir,
                source,
                destination,
                git_dir,
                head,
                talk,
            );
            let run = crate::worktree::register_or_undo_run(
                root_git_dir,
                source,
                destination,
                git_dir,
                head,
                talk,
            );
            &&& run.out == Some(Err::<Seq<u8>, ErrorView>(error))
            &&& run.talk.asked == work.talk.asked + seq![
                RequestView::Inspect(git_dir),
                RequestView::RemoveTree(git_dir),
            ]
        }),
{
    let work = crate::worktree::register_work_run(
        root_git_dir,
        source,
        destination,
        git_dir,
        head,
        talk,
    );
    let run = crate::worktree::register_or_undo_run(
        root_git_dir,
        source,
        destination,
        git_dir,
        head,
        talk,
    );
    assert(run.talk.asked =~= work.talk.asked + seq![
        RequestView::Inspect(git_dir),
        RequestView::RemoveTree(git_dir),
    ]);
}

} // verus!
