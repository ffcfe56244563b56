//! What each operation on a store asks for, and what it makes of the answers.

use crate::conversations as say;
use crate::conversations::Exchange;
use crate::dialogue::{EntryKind, OutputView, PlaceView, ReplyView, RequestView, Talk};
use crate::error::{ErrorView, FailureKind, FailureView};
use crate::safekeeping;
use crate::worktree::{HeadStateView, StepView};
use vstd::prelude::*;
use vstd::utf8::*;

verus! {

/// Whether an answer says that a step was done: a request is answered by its having been done, a
/// Git command by its having ended well.
pub open spec fn good(step: StepView, reply: ReplyView) -> bool {
    match step {
        StepView::Act(_) => reply == ReplyView::Done,
        StepView::Command(_, _, _) => reply matches ReplyView::Printed(output) && output.success,
    }
}

/// Whether an answer makes a step fail with an error: the one of the operating system, or the
/// complaint about a Git command with what that printed as its error.
pub open spec fn fails(step: StepView, reply: ReplyView, error: ErrorView) -> bool {
    ||| reply matches ReplyView::Failed(failure) && error == ErrorView::Io(failure)
    ||| step matches StepView::Command(_, _, complaint) && reply matches ReplyView::Printed(output)
        && !output.success && error == ErrorView::UnsafeGit(
        complaint + ": "@ + say::text_of(output.stderr),
    )
}

/// A plan whose steps are all done succeeds; one with a step that fails makes no request behind
/// that and fails as the step does.
pub proof fn plans_stop_at_the_first_failure(
    steps: Seq<StepView>,
    script: Seq<Exchange>,
    reply: ReplyView,
    error: ErrorView,
)
    requires
        script.len() <= steps.len(),
        forall|k: int|
            0 <= k < script.len() ==> (#[trigger] script[k]).0 == safekeeping::request_of(steps[k]) && good(
                steps[k],
                script[k].1,
            ),
    ensures
        script.len() == steps.len() ==> say::tells(
            |talk: Talk| crate::worktree::steps_run(steps, talk),
            script,
            Ok(()),
        ),
        script.len() < steps.len() && fails(steps[script.len() as int], reply, error) ==> say::tells(
            |talk: Talk| crate::worktree::steps_run(steps, talk),
            script.push((safekeeping::request_of(steps[script.len() as int]), reply)),
            Err(error),
        ),
    decreases steps.len(),
{
    let operation = |talk: Talk| crate::worktree::steps_run(steps, talk);
    let failing: Result<(), ErrorView> = Err(error);
    if steps.len() == 0 {
        assert(script =~= Seq::empty());
        assert forall|talk: Talk| #[trigger] say::has_answers(talk, script) implies operation(talk)
            == say::spoken(talk, script).ready(Ok(())) by {
            say::lemma_none(talk);
        }
    } else if script.len() == 0 {
        let last = (safekeeping::request_of(steps[0]), reply);
        if fails(steps[0], reply, error) {
            assert(script.push(last) =~= seq![last]);
            assert forall|talk: Talk| #[trigger]
                say::has_answers(talk, script.push(last)) implies operation(talk) == say::spoken(
                talk,
                script.push(last),
            ).ready(failing) by {
                say::lemma_one(talk, safekeeping::request_of(steps[0]), reply);
            }
        }
    } else {
        let rest = script.drop_first();
        let later = steps.drop_first();
        let first = script[0];
        assert forall|k: int| 0 <= k < rest.len() implies (#[trigger] rest[k]).0 == safekeeping::request_of(
            later[k],
        ) && good(later[k], rest[k].1) by {
            assert(rest[k] == script[k + 1]);
        }
        plans_stop_at_the_first_failure(later, rest, reply, error);
        assert(script =~= seq![first] + rest);
        assert(first == (first.0, first.1));
        if script.len() == steps.len() {
            assert forall|talk: Talk| #[trigger] say::has_answers(talk, script) implies operation(talk)
                == say::spoken(talk, script).ready(Ok(())) by {
                say::lemma_begin(talk, first.0, first.1, rest);
            }
        } else if fails(steps[script.len() as int], reply, error) {
            let last = (safekeeping::request_of(steps[script.len() as int]), reply);
            assert(later[rest.len() as int] == steps[script.len() as int]);
            assert(script.push(last) =~= seq![first] + rest.push(last));
            assert forall|talk: Talk| #[trigger]
                say::has_answers(talk, script.push(last)) implies operation(talk) == say::spoken(
                talk,
                script.push(last),
            ).ready(failing) by {
                say::lemma_begin(talk, first.0, first.1, rest.push(last));
            }
        }
    }
}

/// The result of a Git command that has no value.
pub open spec fn ended(complaint: Seq<char>, output: OutputView) -> Result<(), ErrorView> {
    if output.success {
        Ok(())
    } else {
        Err(ErrorView::UnsafeGit(complaint + ": "@ + say::text_of(output.stderr)))
    }
}

proof fn lemma_command(
    place: PlaceView,
    args: Seq<Seq<char>>,
    complaint: Seq<char>,
    output: OutputView,
)
    ensures
        say::tells(
            |talk: Talk|
                crate::worktree::step_run(StepView::Command(place, args, complaint), talk),
            seq![(RequestView::Git(place, args), ReplyView::Printed(output))],
            ended(complaint, output),
        ),
{
    let step = StepView::Command(place, args, complaint);
    let operation = |talk: Talk| crate::worktree::step_run(step, talk);
    let request = RequestView::Git(place, args);
    let reply = ReplyView::Printed(output);
    assert forall|talk: Talk| #[trigger]
        say::has_answers(talk, seq![(request, reply)]) implies operation(talk) == say::spoken(
        talk,
        seq![(request, reply)],
    ).ready(ended(complaint, output)) by {
        say::lemma_one(talk, request, reply);
    }
}

/// What each Git command of the library is: where it runs, with which arguments, and how its
/// failure is told. Pruning runs `git worktree prune` on the repository; a working tree is checked
/// by `git status --porcelain`; the worktrees of a repository are checked by listing them.
pub proof fn git_commands_are_these(
    git_dir: Seq<u8>,
    worktree: Seq<u8>,
    args: Seq<Seq<char>>,
    output: OutputView,
)
    ensures
        say::tells(
            |talk: Talk|
                crate::worktree::step_run(crate::worktree::prune_step(git_dir), talk),
            seq![
                (
                    RequestView::Git(PlaceView::GitDir(git_dir), seq!["worktree"@, "prune"@]),
                    ReplyView::Printed(output),
                ),
            ],
            ended("failed to prune Git worktrees"@, output),
        ),
        say::tells(
            |talk: Talk|
                crate::worktree::step_run(crate::worktree::validate_step(worktree), talk),
            seq![
                (
                    RequestView::Git(
                        PlaceView::WorkTree(worktree),
                        seq!["status"@, "--porcelain"@],
                    ),
                    ReplyView::Printed(output),
                ),
            ],
            ended("Git worktree validation failed"@, output),
        ),
        say::tells(
            |talk: Talk|
                crate::worktree::step_run(
                    crate::worktree::repository_step(
                        git_dir,
                        crate::worktree::worktree_list_args(),
                    ),
                    talk,
                ),
            seq![
                (
                    RequestView::Git(
                        PlaceView::GitDir(git_dir),
                        seq!["worktree"@, "list"@, "--porcelain"@],
                    ),
                    ReplyView::Printed(output),
                ),
            ],
            ended("Git command failed"@, output),
        ),
        say::tells(
            |talk: Talk|
                crate::worktree::step_run(crate::worktree::repository_step(git_dir, args), talk),
            seq![(RequestView::Git(PlaceView::GitDir(git_dir), args), ReplyView::Printed(output))],
            ended("Git command failed"@, output),
        ),
        say::tells(
            |talk: Talk|
                crate::worktree::step_run(crate::worktree::worktree_step(worktree, args), talk),
            seq![
                (RequestView::Git(PlaceView::WorkTree(worktree), args), ReplyView::Printed(output)),
            ],
            ended("Git command failed"@, output),
        ),
{
    let repository = PlaceView::GitDir(git_dir);
    let tree = PlaceView::WorkTree(worktree);
    let failed = "Git command failed"@;
    let list = seq!["worktree"@, "list"@, "--porcelain"@];
    let prune = seq!["worktree"@, "prune"@];
    let status = seq!["status"@, "--porcelain"@];
    lemma_command(repository, prune, "failed to prune Git worktrees"@, output);
    lemma_command(tree, status, "Git worktree validation failed"@, output);
    lemma_command(repository, list, failed, output);
    lemma_command(repository, args, failed, output);
    lemma_command(tree, args, failed, output);
    assert(crate::worktree::prune_step(git_dir) == StepView::Command(
        repository,
        prune,
        "failed to prune Git worktrees"@,
    ));
    assert(crate::worktree::validate_step(worktree) == StepView::Command(
        tree,
        status,
        "Git worktree validation failed"@,
    ));
    assert(crate::worktree::worktree_list_args() =~= list);
}

/// The text of a file that points to a repository.
pub open spec fn pointer_text(git_dir: Seq<u8>) -> Seq<char> {
    "gitdir: "@ + crate::foreign::lossy_text(git_dir) + "\n"@
}

/// A pointer to a repository is one line that names it.
pub proof fn pointer_names_the_repository(path: Seq<u8>, git_dir: Seq<u8>)
    ensures
        say::tells(
            |talk: Talk|
                crate::worktree::step_run(crate::worktree::pointer_step(path, git_dir), talk),
            seq![(RequestView::WriteText(path, pointer_text(git_dir)), ReplyView::Done)],
            Ok(()),
        ),
{
    say::requests_succeed_or_fail_as_answered(
        RequestView::WriteText(path, pointer_text(git_dir)),
        FailureView { kind: FailureKind::Other, message: Seq::empty() },
    );
}

/// A request to change a setting of a repository.
pub open spec fn config(git_dir: Seq<u8>, name: Seq<char>, value: Seq<char>) -> RequestView {
    RequestView::Git(PlaceView::GitDir(git_dir), seq!["config"@, name, value])
}

/// The request to take back the setting that says where the working tree is.
pub open spec fn unset_request(git_dir: Seq<u8>) -> RequestView {
    RequestView::GitVisibly(
        PlaceView::GitDir(git_dir),
        seq!["config"@, "--unset"@, "core.worktree"@],
    )
}

/// A repository outside its working tree is told where that is and that it is not bare. One that is
/// inside it again is told to forget where it is, whatever comes of that, and that it is not bare.
pub proof fn repositories_are_told_where_they_are(
    git_dir: Seq<u8>,
    worktree: Seq<u8>,
    one: OutputView,
    two: OutputView,
    any: ReplyView,
)
    requires
        one.success,
    ensures
        say::tells(
            |talk: Talk|
                crate::worktree::steps_run(
                    crate::worktree::external_steps(git_dir, worktree),
                    talk,
                ),
            seq![
                (
                    config(git_dir, "core.worktree"@, crate::foreign::lossy_text(worktree)),
                    ReplyView::Printed(one),
                ),
                (config(git_dir, "core.bare"@, "false"@), ReplyView::Printed(two)),
            ],
            ended("Git command failed"@, two),
        ),
        say::tells(
            |talk: Talk| crate::worktree::configure_inline_root_run(git_dir, talk),
            seq![
                (unset_request(git_dir), any),
                (config(git_dir, "core.bare"@, "false"@), ReplyView::Printed(two)),
            ],
            ended("Git command failed"@, two),
        ),
{
    let steps = crate::worktree::external_steps(git_dir, worktree);
    let first = (
        config(git_dir, "core.worktree"@, crate::foreign::lossy_text(worktree)),
        ReplyView::Printed(one),
    );
    let bare = config(git_dir, "core.bare"@, "false"@);
    let reply = ReplyView::Printed(two);
    let error = ErrorView::UnsafeGit("Git command failed"@ + ": "@ + say::text_of(two.stderr));
    if two.success {
        plans_stop_at_the_first_failure(steps, seq![first, (bare, reply)], reply, error);
    } else {
        plans_stop_at_the_first_failure(steps, seq![first], reply, error);
        assert(seq![first].push((bare, reply)) =~= seq![first, (bare, reply)]);
        assert(safekeeping::request_of(steps[1]) == bare);
    }
    git_commands_are_these(git_dir, worktree, seq!["config"@, "core.bare"@, "false"@], two);
    let unset = unset_request(git_dir);
    let script = seq![(unset, any), (bare, reply)];
    let operation = |talk: Talk| crate::worktree::configure_inline_root_run(git_dir, talk);
    assert(script =~= seq![(unset, any)] + seq![(bare, reply)]);
    assert forall|talk: Talk| #[trigger] say::has_answers(talk, script) implies operation(talk)
        == say::spoken(talk, script).ready(ended("Git command failed"@, two)) by {
        say::lemma_begin(talk, unset, any, seq![(bare, reply)]);
    }
}

/// A directory is real where just a directory stands there: no link, and not nothing.
pub proof fn real_directories_are_no_links(path: Seq<u8>, kind: EntryKind, failure: FailureView)
    ensures
        say::tells(
            |talk: Talk| crate::worktree::real_directory_run(path, talk),
            seq![(RequestView::Inspect(path), ReplyView::Kind(kind))],
            Ok(kind == EntryKind::Directory),
        ),
        say::tells(
            |talk: Talk| crate::worktree::real_directory_run(path, talk),
            seq![(RequestView::Inspect(path), ReplyView::Failed(failure))],
            if failure.kind == FailureKind::NotFound {
                Ok(false)
            } else {
                Err(ErrorView::Io(failure))
            },
        ),
{
    let request = RequestView::Inspect(path);
    let operation = |talk: Talk| crate::worktree::real_directory_run(path, talk);
    let seen = ReplyView::Kind(kind);
    let failed = ReplyView::Failed(failure);
    assert forall|talk: Talk| #[trigger]
        say::has_answers(talk, seq![(request, seen)]) implies operation(talk) == say::spoken(
        talk,
        seq![(request, seen)],
    ).ready(Ok(kind == EntryKind::Directory)) by {
        say::lemma_one(talk, request, seen);
    }
    let out: Result<bool, ErrorView> = if failure.kind == FailureKind::NotFound {
        Ok(false)
    } else {
        Err(ErrorView::Io(failure))
    };
    assert forall|talk: Talk| #[trigger]
        say::has_answers(talk, seq![(request, failed)]) implies operation(talk) == say::spoken(
        talk,
        seq![(request, failed)],
    ).ready(out) by {
        say::lemma_one(talk, request, failed);
    }
}

/// The conversation in which a path is compared with the root that Git prints for it.
pub open spec fn toplevel(
    path: Seq<u8>,
    output: OutputView,
    here: Seq<u8>,
    top: Seq<u8>,
) -> Seq<Exchange> {
    seq![
        (
            RequestView::Git(
                PlaceView::WorkTree(path),
                seq!["rev-parse"@, "--show-toplevel"@],
            ),
            ReplyView::Printed(output),
        ),
        (RequestView::Canonicalize(path), ReplyView::Location(here)),
        (
            RequestView::Canonicalize(encode_utf8(say::text_of(output.stdout))),
            ReplyView::Location(top),
        ),
    ]
}

/// A path is the root of its repository where it is, with all links resolved, the same place as
/// the root that Git prints.
pub proof fn root_is_the_place_that_git_prints(
    path: Seq<u8>,
    output: OutputView,
    here: Seq<u8>,
    top: Seq<u8>,
)
    ensures
        output.success ==> say::tells(
            |talk: Talk| crate::worktree::ensure_toplevel_run(path, talk),
            toplevel(path, output, here, top),
            if crate::path::parts(here) == crate::path::parts(top) {
                Ok(())
            } else {
                Err(
                    ErrorView::UnsafeGit("rift init --worktrees must run at the repository root"@),
                )
            },
        ),
        !output.success ==> say::tells(
            |talk: Talk| crate::worktree::ensure_toplevel_run(path, talk),
            toplevel(path, output, here, top).take(1),
            Err(
                ErrorView::UnsafeGit("failed to resolve Git root"@ + ": "@ + say::text_of(output.stderr)),
            ),
        ),
{
    let script = toplevel(path, output, here, top);
    let operation = |talk: Talk| crate::worktree::ensure_toplevel_run(path, talk);
    let out: Result<(), ErrorView> = if crate::path::parts(here) == crate::path::parts(top) {
        Ok(())
    } else {
        Err(ErrorView::UnsafeGit("rift init --worktrees must run at the repository root"@))
    };
    let a = script[0];
    let b = script[1];
    let c = script[2];
    assert(script =~= seq![a] + (seq![b] + seq![c]));
    if output.success {
        assert forall|talk: Talk| #[trigger] say::has_answers(talk, script) implies operation(talk)
            == say::spoken(talk, script).ready(out) by {
            say::lemma_begin(talk, a.0, a.1, seq![b] + seq![c]);
            say::lemma_begin(talk.after(a.0), b.0, b.1, seq![c]);
            say::lemma_one(talk.after(a.0).after(b.0), c.0, c.1);
        }
    } else {
        let failed: Result<(), ErrorView> = Err(
            ErrorView::UnsafeGit("failed to resolve Git root"@ + ": "@ + say::text_of(output.stderr)),
        );
        assert(script.take(1) =~= seq![a]);
        assert forall|talk: Talk| #[trigger] say::has_answers(talk, script.take(1)) implies operation(
            talk,
        ) == say::spoken(talk, script.take(1)).ready(failed) by {
            say::lemma_one(talk, a.0, a.1);
        }
    }
}

/// A directory is moved by renaming it. Across file systems, and only there, it is copied next to
/// its new place, the copy is renamed, and only then is the source removed; that the place for the
/// copy is taken ends the move before anything is copied.
pub proof fn moves_rename_or_copy(
    source: Seq<u8>,
    destination: Seq<u8>,
    failure: FailureView,
    no: ReplyView,
)
    requires
        no != ReplyView::Flag(true),
    ensures
        ({
            let move_dir = |talk: Talk| crate::worktree::move_dir_run(source, destination, talk);
            let temporary = crate::path::with_extension_of(
                destination,
                encode_utf8("rift-restore-tmp"@),
            );
            let rename = RequestView::Rename(source, destination);
            let done = ReplyView::Done;
            &&& say::tells(move_dir, seq![(rename, done)], Ok(()))
            &&& failure.kind != FailureKind::CrossesDevices ==> say::tells(
                move_dir,
                seq![(rename, ReplyView::Failed(failure))],
                Err(ErrorView::Io(failure)),
            )
            &&& failure.kind == FailureKind::CrossesDevices ==> say::tells(
                move_dir,
                seq![
                    (rename, ReplyView::Failed(failure)),
                    (RequestView::Exists(temporary), ReplyView::Flag(true)),
                ],
                Err(ErrorView::AlreadyExists(temporary)),
            )
            &&& failure.kind == FailureKind::CrossesDevices ==> say::tells(
                move_dir,
                seq![
                    (rename, ReplyView::Failed(failure)),
                    (RequestView::Exists(temporary), no),
                    (RequestView::CopyTree(source, temporary), done),
                    (RequestView::Rename(temporary, destination), done),
                    (RequestView::RemoveTree(source), done),
                ],
                Ok(()),
            )
        }),
{
    let move_dir = |talk: Talk| crate::worktree::move_dir_run(source, destination, talk);
    let temporary = crate::path::with_extension_of(
        destination,
        encode_utf8("rift-restore-tmp"@),
    );
    let rename = RequestView::Rename(source, destination);
    let there = RequestView::Exists(temporary);
    let failed = ReplyView::Failed(failure);
    let done = ReplyView::Done;
    let yes = ReplyView::Flag(true);
    let steps = seq![
        StepView::Act(RequestView::CopyTree(source, temporary)),
        StepView::Act(RequestView::Rename(temporary, destination)),
        StepView::Act(RequestView::RemoveTree(source)),
    ];
    let copying = seq![
        (RequestView::CopyTree(source, temporary), done),
        (RequestView::Rename(temporary, destination), done),
        (RequestView::RemoveTree(source), done),
    ];
    plans_stop_at_the_first_failure(steps, copying, done, ErrorView::Unexpected);
    assert forall|talk: Talk| #[trigger] say::has_answers(talk, seq![(rename, done)]) implies move_dir(
        talk,
    ) == say::spoken(talk, seq![(rename, done)]).ready(Ok(())) by {
        say::lemma_one(talk, rename, done);
    }
    let io: Result<(), ErrorView> = Err(ErrorView::Io(failure));
    let taken: Result<(), ErrorView> = Err(ErrorView::AlreadyExists(temporary));
    if failure.kind != FailureKind::CrossesDevices {
        assert forall|talk: Talk| #[trigger]
            say::has_answers(talk, seq![(rename, failed)]) implies move_dir(talk) == say::spoken(
            talk,
            seq![(rename, failed)],
        ).ready(io) by {
            say::lemma_one(talk, rename, failed);
        }
    } else {
        let blocked = seq![(rename, failed), (there, yes)];
        assert(blocked =~= seq![(rename, failed)] + seq![(there, yes)]);
        assert forall|talk: Talk| #[trigger] say::has_answers(talk, blocked) implies move_dir(talk)
            == say::spoken(talk, blocked).ready(taken) by {
            say::lemma_begin(talk, rename, failed, seq![(there, yes)]);
            say::lemma_one(talk.after(rename), there, yes);
        }
        let whole = seq![(rename, failed), (there, no)] + copying;
        assert(whole =~= seq![
            (rename, failed),
            (there, no),
            (RequestView::CopyTree(source, temporary), done),
            (RequestView::Rename(temporary, destination), done),
            (RequestView::RemoveTree(source), done),
        ]);
        assert(whole =~= seq![(rename, failed)] + (seq![(there, no)] + copying));
        assert forall|talk: Talk| #[trigger] say::has_answers(talk, whole) implies move_dir(talk)
            == say::spoken(talk, whole).ready(Ok(())) by {
            say::lemma_begin(talk, rename, failed, seq![(there, no)] + copying);
            say::lemma_begin(talk.after(rename), there, no, copying);
        }
    }
}

/// A repository goes back to a place only where no directory stands: a pointer there is removed
/// first, and then the repository is moved, whatever comes of that.
pub proof fn only_a_pointer_is_overwritten(
    source: Seq<u8>,
    destination: Seq<u8>,
    kind: EntryKind,
    moved: Seq<Exchange>,
    out: Result<(), ErrorView>,
    no: ReplyView,
)
    requires
        no != ReplyView::Flag(true),
        say::tells(
            |talk: Talk| crate::worktree::move_dir_run(source, destination, talk),
            moved,
            out,
        ),
    ensures
        ({
            let restore = |talk: Talk|
                crate::worktree::restore_git_dir_run(source, destination, talk);
            let there = RequestView::Exists(destination);
            let inspect = RequestView::Inspect(destination);
            let yes = ReplyView::Flag(true);
            let done = ReplyView::Done;
            &&& say::tells(restore, seq![(there, no)] + moved, out)
            &&& say::tells(
                restore,
                seq![(there, yes), (inspect, ReplyView::Kind(EntryKind::Directory))],
                Err(
                    ErrorView::UnsafeGit(
                        "cannot restore Git metadata over existing directory: "@
                            + crate::foreign::lossy_text(destination),
                    ),
                ),
            )
            &&& kind != EntryKind::Directory ==> say::tells(
                restore,
                seq![
                    (there, yes),
                    (inspect, ReplyView::Kind(kind)),
                    (RequestView::RemoveFile(destination), done),
                ] + moved,
                out,
            )
        }),
{
    let restore = |talk: Talk| crate::worktree::restore_git_dir_run(source, destination, talk);
    let there = RequestView::Exists(destination);
    let inspect = RequestView::Inspect(destination);
    let remove = RequestView::RemoveFile(destination);
    let yes = ReplyView::Flag(true);
    let done = ReplyView::Done;
    let seen = ReplyView::Kind(kind);
    let directory = ReplyView::Kind(EntryKind::Directory);
    let free = seq![(there, no)] + moved;
    assert forall|talk: Talk| #[trigger] say::has_answers(talk, free) implies restore(talk)
        == say::spoken(talk, free).ready(out) by {
        say::lemma_begin(talk, there, no, moved);
    }
    let blocked = seq![(there, yes), (inspect, directory)];
    let error: Result<(), ErrorView> = Err(
        ErrorView::UnsafeGit(
            "cannot restore Git metadata over existing directory: "@ + crate::foreign::lossy_text(
                destination,
            ),
        ),
    );
    assert(blocked =~= seq![(there, yes)] + seq![(inspect, directory)]);
    assert forall|talk: Talk| #[trigger] say::has_answers(talk, blocked) implies restore(talk)
        == say::spoken(talk, blocked).ready(error) by {
        say::lemma_begin(talk, there, yes, seq![(inspect, directory)]);
        say::lemma_one(talk.after(there), inspect, directory);
    }
    if kind != EntryKind::Directory {
        let pointed = seq![(there, yes), (inspect, seen), (remove, done)] + moved;
        let b = seq![(remove, done)] + moved;
        let a = seq![(inspect, seen)] + b;
        assert(pointed =~= seq![(there, yes)] + a);
        assert forall|talk: Talk| #[trigger] say::has_answers(talk, pointed) implies restore(talk)
            == say::spoken(talk, pointed).ready(out) by {
            say::lemma_begin(talk, there, yes, a);
            say::lemma_begin(talk.after(there), inspect, seen, b);
            say::lemma_begin(talk.after(there).after(inspect), remove, done, moved);
        }
    }
}

/// An initialization is undone by bringing the repository back from the final store, or else from
/// the staging one. Both stores are removed, whatever comes of that, once it is back, and only
/// then: where it is in neither, or does not come back, nothing is removed.
pub proof fn stores_are_removed_once_the_repository_is_back(
    inline_git: Seq<u8>,
    staging_git: Seq<u8>,
    final_git: Seq<u8>,
    staging_parent: Seq<u8>,
    final_parent: Seq<u8>,
    brought: Seq<Exchange>,
    out: Result<(), ErrorView>,
    no: ReplyView,
    one: ReplyView,
    two: ReplyView,
)
    requires
        no != ReplyView::Flag(true),
    ensures
        ({
            let rollback = |talk: Talk|
                crate::worktree::rollback_run(
                    inline_git,
                    staging_git,
                    final_git,
                    staging_parent,
                    final_parent,
                    talk,
                );
            let from_final = |talk: Talk|
                crate::worktree::restore_git_dir_run(final_git, inline_git, talk);
            let from_staging = |talk: Talk|
                crate::worktree::restore_git_dir_run(staging_git, inline_git, talk);
            let in_final = RequestView::Exists(final_git);
            let in_staging = RequestView::Exists(staging_git);
            let yes = ReplyView::Flag(true);
            let ending = if out is Ok {
                brought + seq![
                    (RequestView::RemoveTree(staging_parent), one),
                    (RequestView::RemoveTree(final_parent), two),
                ]
            } else {
                brought
            };
            &&& say::tells(from_final, brought, out) ==> say::tells(
                rollback,
                seq![(in_final, yes)] + ending,
                Ok(()),
            )
            &&& say::tells(from_staging, brought, out) ==> say::tells(
                rollback,
                seq![(in_final, no), (in_staging, yes)] + ending,
                Ok(()),
            )
            &&& say::tells(rollback, seq![(in_final, no), (in_staging, no)], Ok(()))
        }),
{
    let rollback = |talk: Talk|
        crate::worktree::rollback_run(
            inline_git,
            staging_git,
            final_git,
            staging_parent,
            final_parent,
            talk,
        );
    let from_final = |talk: Talk|
        crate::worktree::restore_git_dir_run(final_git, inline_git, talk);
    let from_staging = |talk: Talk|
        crate::worktree::restore_git_dir_run(staging_git, inline_git, talk);
    let in_final = RequestView::Exists(final_git);
    let in_staging = RequestView::Exists(staging_git);
    let yes = ReplyView::Flag(true);
    let clear_staging = RequestView::RemoveTree(staging_parent);
    let clear_final = RequestView::RemoveTree(final_parent);
    let cleared = seq![(clear_staging, one), (clear_final, two)];
    assert(cleared =~= seq![(clear_staging, one)] + seq![(clear_final, two)]);
    let ending = if out is Ok {
        brought + cleared
    } else {
        brought
    };
    if say::tells(from_final, brought, out) {
        let a = seq![(in_final, yes)] + ending;
        assert forall|talk: Talk| #[trigger] say::has_answers(talk, a) implies rollback(talk)
            == say::spoken(talk, a).ready(Ok(())) by {
            say::lemma_begin(talk, in_final, yes, ending);
            let t = talk.after(in_final);
            if out is Ok {
                say::lemma_split(t, brought, cleared);
                let back = say::spoken(t, brought);
                say::lemma_begin(back, clear_staging, one, seq![(clear_final, two)]);
                say::lemma_one(back.after(clear_staging), clear_final, two);
            }
            assert(say::has_answers(t, brought));
        }
    }
    if say::tells(from_staging, brought, out) {
        let b = seq![(in_final, no), (in_staging, yes)] + ending;
        assert(b =~= seq![(in_final, no)] + (seq![(in_staging, yes)] + ending));
        assert forall|talk: Talk| #[trigger] say::has_answers(talk, b) implies rollback(talk)
            == say::spoken(talk, b).ready(Ok(())) by {
            say::lemma_begin(talk, in_final, no, seq![(in_staging, yes)] + ending);
            say::lemma_begin(talk.after(in_final), in_staging, yes, ending);
            let t = talk.after(in_final).after(in_staging);
            if out is Ok {
                say::lemma_split(t, brought, cleared);
                let back = say::spoken(t, brought);
                say::lemma_begin(back, clear_staging, one, seq![(clear_final, two)]);
                say::lemma_one(back.after(clear_staging), clear_final, two);
            }
            assert(say::has_answers(t, brought));
        }
    }
    let c = seq![(in_final, no), (in_staging, no)];
    assert(c =~= seq![(in_final, no)] + seq![(in_staging, no)]);
    assert forall|talk: Talk| #[trigger] say::has_answers(talk, c) implies rollback(talk)
        == say::spoken(talk, c).ready(Ok(())) by {
        say::lemma_begin(talk, in_final, no, seq![(in_staging, no)]);
        say::lemma_one(talk.after(in_final), in_staging, no);
    }
}

/// The checks of an initialization: the repository is an inline one, its root is here, and nothing
/// stands where its stores will be.
pub open spec fn checks(
    path: Seq<u8>,
    final_parent: Seq<u8>,
    staging_parent: Seq<u8>,
    output: OutputView,
    here: Seq<u8>,
    top: Seq<u8>,
    no: ReplyView,
) -> Seq<Exchange> {
    seq![
        (
            RequestView::Inspect(crate::path::child(path, ".git"@)),
            ReplyView::Kind(EntryKind::Directory),
        ),
    ] + (toplevel(path, output, here, top) + seq![
        (RequestView::Exists(final_parent), no),
        (RequestView::Exists(staging_parent), no),
    ])
}

/// The twelve requests that take a repository into its store, by way of a staging directory: at
/// each of both places the pointer is written, the repository is told where its working tree is,
/// and Git has to accept the result.
pub open spec fn taking_in(
    path: Seq<u8>,
    repos: Seq<u8>,
    staging_parent: Seq<u8>,
    final_parent: Seq<u8>,
    final_git: Seq<u8>,
) -> Seq<RequestView> {
    let inline_git = crate::path::child(path, ".git"@);
    let staging_git = crate::path::child(staging_parent, "git"@);
    let status = RequestView::Git(
        PlaceView::WorkTree(path),
        seq!["status"@, "--porcelain"@],
    );
    let tree = crate::foreign::lossy_text(path);
    seq![
        RequestView::CreateDirs(repos),
        RequestView::CreateDirs(staging_parent),
        RequestView::Rename(inline_git, staging_git),
        RequestView::WriteText(inline_git, pointer_text(staging_git)),
        config(staging_git, "core.worktree"@, tree),
        config(staging_git, "core.bare"@, "false"@),
        status,
        RequestView::Rename(staging_parent, final_parent),
        RequestView::WriteText(inline_git, pointer_text(final_git)),
        config(final_git, "core.worktree"@, tree),
        config(final_git, "core.bare"@, "false"@),
        status,
    ]
}

/// Whether an answer to a request says that it was done.
pub open spec fn did_well(request: RequestView, reply: ReplyView) -> bool {
    if request is Git {
        reply matches ReplyView::Printed(output) && output.success
    } else {
        reply == ReplyView::Done
    }
}

/// Whether exchanges are the first of those requests, all of them done.
pub open spec fn went_well(script: Seq<Exchange>, requests: Seq<RequestView>) -> bool {
    &&& script.len() <= requests.len()
    &&& forall|k: int|
        0 <= k < script.len() ==> (#[trigger] script[k]).0 == requests[k] && did_well(
            requests[k],
            script[k].1,
        )
}

/// An initialization that passes its checks and in which all goes well takes the repository into
/// the directory `git` in one named after the root, and answers with that place.
pub proof fn initialization_takes_the_repository_in(
    path: Seq<u8>,
    root_id: Seq<char>,
    repo_storage: Seq<u8>,
    home: Seq<u8>,
    repos: Seq<u8>,
    output: OutputView,
    here: Seq<u8>,
    top: Seq<u8>,
    no: ReplyView,
    script: Seq<Exchange>,
)
    requires
        no != ReplyView::Flag(true),
        output.success,
        crate::path::parts(here) == crate::path::parts(top),
        ({
            let final_git = crate::path::child(crate::path::child(repo_storage, root_id), "git"@);
            let staging = crate::path::with_extension_of(home, encode_utf8("tmp"@));
            &&& crate::path::parent_of(final_git) == Some(home)
            &&& crate::path::parent_of(home) == Some(repos)
            &&& script.len() == 12
            &&& went_well(script, taking_in(path, repos, staging, home, final_git))
        }),
    ensures
        ({
            let final_git = crate::path::child(crate::path::child(repo_storage, root_id), "git"@);
            let staging = crate::path::with_extension_of(home, encode_utf8("tmp"@));
            say::tells(
                |talk: Talk|
                    crate::worktree::initialize_root_run(path, root_id, repo_storage, talk),
                checks(path, home, staging, output, here, top, no) + script,
                Ok(final_git),
            )
        }),
{
    let final_git = crate::path::child(crate::path::child(repo_storage, root_id), "git"@);
    let staging = crate::path::with_extension_of(home, encode_utf8("tmp"@));
    let checked = checks(path, home, staging, output, here, top, no);
    let initialize = |talk: Talk|
        crate::worktree::initialize_root_run(path, root_id, repo_storage, talk);
    let steps = crate::worktree::initialize_steps(path, repos, staging, home, final_git);
    lemma_plan_of_initialization(path, repos, staging, home, final_git);
    assert forall|k: int| 0 <= k < script.len() implies (#[trigger] script[k]).0 == safekeeping::request_of(
        steps[k],
    ) && good(steps[k], script[k].1) by {
        let requests = taking_in(path, repos, staging, home, final_git);
        assert(script[k].0 == requests[k] && did_well(requests[k], script[k].1));
    }
    plans_stop_at_the_first_failure(steps, script, no, ErrorView::Unexpected);
    assert forall|talk: Talk| #[trigger]
        say::has_answers(talk, checked + script) implies initialize(talk) == say::spoken(
        talk,
        checked + script,
    ).ready(Ok(final_git)) by {
        say::lemma_split(talk, checked, script);
        lemma_checked(path, root_id, repo_storage, home, repos, output, here, top, no, talk);
    }
}

proof fn lemma_plan_of_initialization(
    path: Seq<u8>,
    repos: Seq<u8>,
    staging_parent: Seq<u8>,
    final_parent: Seq<u8>,
    final_git: Seq<u8>,
)
    ensures
        ({
            let steps = crate::worktree::initialize_steps(
                path,
                repos,
                staging_parent,
                final_parent,
                final_git,
            );
            let requests = taking_in(path, repos, staging_parent, final_parent, final_git);
            &&& steps.len() == 12
            &&& forall|k: int|
                0 <= k < 12 ==> safekeeping::request_of(#[trigger] steps[k]) == requests[k] && (steps[k]
                    is Command <==> requests[k] is Git)
        }),
{
    let steps = crate::worktree::initialize_steps(
        path,
        repos,
        staging_parent,
        final_parent,
        final_git,
    );
    let requests = taking_in(path, repos, staging_parent, final_parent, final_git);
    assert(steps.len() == 12);
    assert forall|k: int| 0 <= k < 12 implies safekeeping::request_of(#[trigger] steps[k]) == requests[k] && (
    steps[k] is Command <==> requests[k] is Git) by {
        if k == 0 || k == 1 || k == 2 || k == 3 {
        } else if k == 4 || k == 5 || k == 6 || k == 7 {
        } else {
            assert(k == 8 || k == 9 || k == 10 || k == 11);
        }
    }
}

/// An initialization that has passed its checks goes on with its moves.
proof fn lemma_checked(
    path: Seq<u8>,
    root_id: Seq<char>,
    repo_storage: Seq<u8>,
    home: Seq<u8>,
    repos: Seq<u8>,
    output: OutputView,
    here: Seq<u8>,
    top: Seq<u8>,
    no: ReplyView,
    talk: Talk,
)
    requires
        no != ReplyView::Flag(true),
        output.success,
        crate::path::parts(here) == crate::path::parts(top),
        ({
            let final_git = crate::path::child(crate::path::child(repo_storage, root_id), "git"@);
            let staging = crate::path::with_extension_of(home, encode_utf8("tmp"@));
            &&& crate::path::parent_of(final_git) == Some(home)
            &&& crate::path::parent_of(home) == Some(repos)
            &&& say::has_answers(talk, checks(path, home, staging, output, here, top, no))
        }),
    ensures
        ({
            let final_git = crate::path::child(crate::path::child(repo_storage, root_id), "git"@);
            let staging = crate::path::with_extension_of(home, encode_utf8("tmp"@));
            crate::worktree::initialize_root_run(path, root_id, repo_storage, talk)
                == crate::worktree::initialize_moves_run(
                path,
                repos,
                staging,
                home,
                final_git,
                say::spoken(talk, checks(path, home, staging, output, here, top, no)),
            )
        }),
{
    let staging = crate::path::with_extension_of(home, encode_utf8("tmp"@));
    let git = crate::path::child(path, ".git"@);
    let inspect = RequestView::Inspect(git);
    let directory = ReplyView::Kind(EntryKind::Directory);
    let root = toplevel(path, output, here, top);
    let a = RequestView::Exists(home);
    let b = RequestView::Exists(staging);
    let free = seq![(a, no), (b, no)];
    let failure = FailureView { kind: FailureKind::Other, message: Seq::empty() };
    real_directories_are_no_links(git, EntryKind::Directory, failure);
    root_is_the_place_that_git_prints(path, output, here, top);
    say::lemma_split(talk, seq![(inspect, directory)], root + free);
    let t1 = say::spoken(talk, seq![(inspect, directory)]);
    say::lemma_split(t1, root, free);
    let t2 = say::spoken(t1, root);
    assert(free =~= seq![(a, no)] + seq![(b, no)]);
    say::lemma_begin(t2, a, no, seq![(b, no)]);
    say::lemma_one(t2.after(a), b, no);
}

/// An initialization that fails on its way into the store is undone from there, and answers with
/// what made it fail.
pub proof fn failed_initialization_is_undone(
    path: Seq<u8>,
    root_id: Seq<char>,
    repo_storage: Seq<u8>,
    home: Seq<u8>,
    repos: Seq<u8>,
    output: OutputView,
    here: Seq<u8>,
    top: Seq<u8>,
    no: ReplyView,
    script: Seq<Exchange>,
    failure: FailureView,
    talk: Talk,
)
    requires
        no != ReplyView::Flag(true),
        output.success,
        crate::path::parts(here) == crate::path::parts(top),
        ({
            let final_git = crate::path::child(crate::path::child(repo_storage, root_id), "git"@);
            let staging = crate::path::with_extension_of(home, encode_utf8("tmp"@));
            let requests = taking_in(path, repos, staging, home, final_git);
            let whole = checks(path, home, staging, output, here, top, no) + script.push(
                (requests[script.len() as int], ReplyView::Failed(failure)),
            );
            &&& crate::path::parent_of(final_git) == Some(home)
            &&& crate::path::parent_of(home) == Some(repos)
            &&& script.len() < 12
            &&& went_well(script, requests)
            &&& say::has_answers(talk, whole)
        }),
    ensures
        ({
            let final_git = crate::path::child(crate::path::child(repo_storage, root_id), "git"@);
            let staging = crate::path::with_extension_of(home, encode_utf8("tmp"@));
            let requests = taking_in(path, repos, staging, home, final_git);
            let whole = checks(path, home, staging, output, here, top, no) + script.push(
                (requests[script.len() as int], ReplyView::Failed(failure)),
            );
            let run = crate::worktree::initialize_root_run(path, root_id, repo_storage, talk);
            let undone = crate::worktree::rollback_run(
                crate::path::child(path, ".git"@),
                crate::path::child(staging, "git"@),
                final_git,
                staging,
                home,
                say::spoken(talk, whole),
            );
            &&& run.talk == undone.talk
            &&& undone.out is Some ==> run.out == Some(
                Err::<Seq<u8>, ErrorView>(ErrorView::Io(failure)),
            )
        }),
{
    let final_git = crate::path::child(crate::path::child(repo_storage, root_id), "git"@);
    let staging = crate::path::with_extension_of(home, encode_utf8("tmp"@));
    let requests = taking_in(path, repos, staging, home, final_git);
    let failed = ReplyView::Failed(failure);
    let checked = checks(path, home, staging, output, here, top, no);
    let steps = crate::worktree::initialize_steps(path, repos, staging, home, final_git);
    lemma_plan_of_initialization(path, repos, staging, home, final_git);
    assert forall|k: int| 0 <= k < script.len() implies (#[trigger] script[k]).0 == safekeeping::request_of(
        steps[k],
    ) && good(steps[k], script[k].1) by {
        assert(script[k].0 == requests[k] && did_well(requests[k], script[k].1));
    }
    plans_stop_at_the_first_failure(steps, script, failed, ErrorView::Io(failure));
    assert(safekeeping::request_of(steps[script.len() as int]) == requests[script.len() as int]);
    let ending = script.push((requests[script.len() as int], failed));
    say::lemma_split(talk, checked, ending);
    lemma_checked(path, root_id, repo_storage, home, repos, output, here, top, no, talk);
}

/// An initialization is refused, with nothing changed, where there is no inline repository and
/// where something stands at the place of a store.
pub proof fn initialization_needs_an_inline_repository_and_room(
    path: Seq<u8>,
    root_id: Seq<char>,
    repo_storage: Seq<u8>,
    home: Seq<u8>,
    kind: EntryKind,
    output: OutputView,
    here: Seq<u8>,
    top: Seq<u8>,
    no: ReplyView,
)
    requires
        no != ReplyView::Flag(true),
        output.success,
        crate::path::parts(here) == crate::path::parts(top),
        crate::path::parent_of(
            crate::path::child(crate::path::child(repo_storage, root_id), "git"@),
        ) == Some(home),
    ensures
        ({
            let initialize = |talk: Talk|
                crate::worktree::initialize_root_run(path, root_id, repo_storage, talk);
            let inspect = RequestView::Inspect(crate::path::child(path, ".git"@));
            let staging = crate::path::with_extension_of(home, encode_utf8("tmp"@));
            let begun = seq![(inspect, ReplyView::Kind(EntryKind::Directory))] + toplevel(
                path,
                output,
                here,
                top,
            );
            let yes = ReplyView::Flag(true);
            &&& kind != EntryKind::Directory ==> say::tells(
                initialize,
                seq![(inspect, ReplyView::Kind(kind))],
                Err(
                    ErrorView::UnsafeGit(
                        "rift init --worktrees requires a repository with an inline .git directory"@,
                    ),
                ),
            )
            &&& say::tells(
                initialize,
                begun + seq![(RequestView::Exists(home), yes)],
                Err(ErrorView::AlreadyExists(home)),
            )
            &&& say::tells(
                initialize,
                begun + seq![
                    (RequestView::Exists(home), no),
                    (RequestView::Exists(staging), yes),
                ],
                Err(ErrorView::AlreadyExists(home)),
            )
        }),
{
    let initialize = |talk: Talk|
        crate::worktree::initialize_root_run(path, root_id, repo_storage, talk);
    let git = crate::path::child(path, ".git"@);
    let inspect = RequestView::Inspect(git);
    let staging = crate::path::with_extension_of(home, encode_utf8("tmp"@));
    let yes = ReplyView::Flag(true);
    let directory = ReplyView::Kind(EntryKind::Directory);
    let root = toplevel(path, output, here, top);
    let failure = FailureView { kind: FailureKind::Other, message: Seq::empty() };
    real_directories_are_no_links(git, kind, failure);
    real_directories_are_no_links(git, EntryKind::Directory, failure);
    root_is_the_place_that_git_prints(path, output, here, top);
    let refused: Result<Seq<u8>, ErrorView> = Err(
        ErrorView::UnsafeGit(
            "rift init --worktrees requires a repository with an inline .git directory"@,
        ),
    );
    let taken: Result<Seq<u8>, ErrorView> = Err(ErrorView::AlreadyExists(home));
    if kind != EntryKind::Directory {
        let seen = seq![(inspect, ReplyView::Kind(kind))];
        assert forall|talk: Talk| #[trigger] say::has_answers(talk, seen) implies initialize(talk)
            == say::spoken(talk, seen).ready(refused) by {}
    }
    let one = seq![(inspect, directory)];
    let a = RequestView::Exists(home);
    let b = RequestView::Exists(staging);
    let first = seq![(a, yes)];
    let second = seq![(a, no), (b, yes)];
    assert(one + root + first =~= one + (root + first));
    assert(one + root + second =~= one + (root + second));
    assert forall|talk: Talk| #[trigger]
        say::has_answers(talk, one + root + first) implies initialize(talk) == say::spoken(
        talk,
        one + root + first,
    ).ready(taken) by {
        say::lemma_split(talk, one, root + first);
        say::lemma_split(say::spoken(talk, one), root, first);
        say::lemma_one(say::spoken(say::spoken(talk, one), root), a, yes);
    }
    assert(second =~= seq![(a, no)] + seq![(b, yes)]);
    assert forall|talk: Talk| #[trigger]
        say::has_answers(talk, one + root + second) implies initialize(talk) == say::spoken(
        talk,
        one + root + second,
    ).ready(taken) by {
        say::lemma_split(talk, one, root + second);
        say::lemma_split(say::spoken(talk, one), root, second);
        let t = say::spoken(say::spoken(talk, one), root);
        say::lemma_begin(t, a, no, seq![(b, yes)]);
        say::lemma_one(t.after(a), b, yes);
    }
}

/// The conversation in which `HEAD` is read because it leads to no commit.
pub open spec fn branch_reading(
    path: Seq<u8>,
    output: OutputView,
    own: OutputView,
    common: OutputView,
    git_dir: Seq<u8>,
    contents: Seq<char>,
) -> Seq<Exchange> {
    seq![(say::commit_request(path), ReplyView::Printed(output))] + (say::lookup(path, own, common) + seq![
        (
            RequestView::ReadText(crate::path::child(git_dir, "HEAD"@)),
            ReplyView::Text(contents),
        ),
    ])
}

/// `HEAD` says the commit that Git prints for it. Where there is none, it says what its file in the
/// directory of its own holds, if that names a branch. A file `HEAD` that says the same holds the
/// commit as a line, or the same contents. A repository without a commit is refused where one is
/// needed.
pub proof fn head_is_a_commit_or_a_branch(
    path: Seq<u8>,
    output: OutputView,
    own: OutputView,
    common: OutputView,
    git_dir: Seq<u8>,
    common_dir: Seq<u8>,
    contents: Seq<char>,
    no: ReplyView,
)
    requires
        say::names(own, git_dir),
        say::names(common, common_dir),
        no != ReplyView::Flag(true),
    ensures
        ({
            let head_state = |talk: Talk| crate::worktree::head_state_run(path, talk);
            let need = |talk: Talk| crate::worktree::ensure_head_commit_run(path, talk);
            let asked = seq![(say::commit_request(path), ReplyView::Printed(output))];
            let absent = seq![(RequestView::Exists(crate::path::child(path, ".git"@)), no)];
            let read = branch_reading(path, output, own, common, git_dir, contents);
            let branch = "ref: "@.is_prefix_of(contents);
            &&& output.success ==> say::tells(
                head_state,
                asked,
                Ok(HeadStateView::Commit(say::text_of(output.stdout))),
            )
            &&& output.success ==> say::tells(need, asked, Ok(()))
            &&& !output.success && branch ==> say::tells(
                head_state,
                read,
                Ok(HeadStateView::Symbolic(contents)),
            )
            &&& !output.success && branch ==> say::tells(
                need,
                read,
                Err(
                    ErrorView::UnsafeGit(
                        "rift init --worktrees requires a repository with at least one commit"@,
                    ),
                ),
            )
            &&& !output.success && !branch ==> say::tells(
                head_state,
                read,
                Err(
                    ErrorView::UnsafeGit("cannot resolve Git HEAD for worktree registration"@),
                ),
            )
            &&& !output.success ==> say::tells(
                head_state,
                asked + absent,
                Err(ErrorView::UnsafeGit("source is not a Git repository"@)),
            )
            &&& HeadStateView::Commit(contents).contents() == contents + "\n"@
            &&& HeadStateView::Symbolic(contents).contents() == contents
        }),
{
    let head_state = |talk: Talk| crate::worktree::head_state_run(path, talk);
    let need = |talk: Talk| crate::worktree::ensure_head_commit_run(path, talk);
    let request = say::commit_request(path);
    let reply = ReplyView::Printed(output);
    let asked = seq![(request, reply)];
    let absent = seq![(RequestView::Exists(crate::path::child(path, ".git"@)), no)];
    let found = say::lookup(path, own, common);
    let file = RequestView::ReadText(crate::path::child(git_dir, "HEAD"@));
    let text = ReplyView::Text(contents);
    let read = branch_reading(path, output, own, common, git_dir, contents);
    assert(read == asked + (found + seq![(file, text)]));
    say::directories_are_those_that_git_names(path, own, common, git_dir, common_dir, no);
    assert(crate::git::head_commit_args() =~= seq!["rev-parse"@, "--verify"@, "HEAD^{commit}"@]);
    if output.success {
        assert forall|talk: Talk| #[trigger] say::has_answers(talk, asked) implies head_state(talk)
            == say::spoken(talk, asked).ready(Ok(HeadStateView::Commit(say::text_of(output.stdout))))
            && need(talk) == say::spoken(talk, asked).ready(Ok(())) by {
            say::lemma_one(talk, request, reply);
        }
    } else {
        let none: Result<HeadStateView, ErrorView> = Err(
            ErrorView::UnsafeGit("source is not a Git repository"@),
        );
        let unknown: Result<HeadStateView, ErrorView> = Err(
            ErrorView::UnsafeGit("cannot resolve Git HEAD for worktree registration"@),
        );
        let unborn: Result<(), ErrorView> = Err(
            ErrorView::UnsafeGit(
                "rift init --worktrees requires a repository with at least one commit"@,
            ),
        );
        assert forall|talk: Talk| #[trigger] say::has_answers(talk, asked + absent) implies head_state(
            talk,
        ) == say::spoken(talk, asked + absent).ready(none) by {
            say::lemma_begin(talk, request, reply, absent);
        }
        assert forall|talk: Talk| #[trigger] say::has_answers(talk, read) implies if "ref: "@.is_prefix_of(
            contents,
        ) {
            head_state(talk) == say::spoken(talk, read).ready(Ok(HeadStateView::Symbolic(contents)))
                && need(talk) == say::spoken(talk, read).ready(unborn)
        } else {
            head_state(talk) == say::spoken(talk, read).ready(unknown)
        } by {
            say::lemma_begin(talk, request, reply, found + seq![(file, text)]);
            let t = talk.after(request);
            say::lemma_split(t, found, seq![(file, text)]);
            say::lemma_one(say::spoken(t, found), file, text);
        }
    }
}

/// How an entry of a kind is removed: a directory with all it holds, anything else as a file.
pub open spec fn removal(path: Seq<u8>, kind: EntryKind) -> RequestView {
    if kind == EntryKind::Directory {
        RequestView::RemoveTree(path)
    } else {
        RequestView::RemoveFile(path)
    }
}

/// The `.git` that came with a copy is removed, whatever it is, and has to be there. Metadata of a
/// worktree is removed too, whatever it is, but need not be there.
pub proof fn metadata_is_removed_whatever_it_is(
    destination: Seq<u8>,
    git_dir: Seq<u8>,
    kind: EntryKind,
    failure: FailureView,
)
    ensures
        ({
            let git = crate::path::child(destination, ".git"@);
            let copied = |talk: Talk| crate::worktree::remove_copied_run(destination, talk);
            let registered = |talk: Talk| crate::worktree::remove_registered_run(git_dir, talk);
            let seen = ReplyView::Kind(kind);
            let failed = ReplyView::Failed(failure);
            let done = ReplyView::Done;
            &&& say::tells(
                copied,
                seq![(RequestView::Inspect(git), seen), (removal(git, kind), done)],
                Ok(()),
            )
            &&& say::tells(
                copied,
                seq![(RequestView::Inspect(git), failed)],
                Err(ErrorView::Io(failure)),
            )
            &&& say::tells(
                registered,
                seq![(RequestView::Inspect(git_dir), seen), (removal(git_dir, kind), done)],
                Ok(()),
            )
            &&& say::tells(
                registered,
                seq![(RequestView::Inspect(git_dir), seen), (removal(git_dir, kind), failed)],
                Err(ErrorView::Io(failure)),
            )
            &&& say::tells(registered, seq![(RequestView::Inspect(git_dir), failed)], Ok(()))
        }),
{
    let git = crate::path::child(destination, ".git"@);
    let copied = |talk: Talk| crate::worktree::remove_copied_run(destination, talk);
    let registered = |talk: Talk| crate::worktree::remove_registered_run(git_dir, talk);
    let seen = ReplyView::Kind(kind);
    let failed = ReplyView::Failed(failure);
    let done = ReplyView::Done;
    let io: Result<(), ErrorView> = Err(ErrorView::Io(failure));
    let a = RequestView::Inspect(git);
    let b = RequestView::Inspect(git_dir);
    let s1 = seq![(a, seen), (removal(git, kind), done)];
    let s2 = seq![(a, failed)];
    let s3 = seq![(b, seen), (removal(git_dir, kind), done)];
    let s4 = seq![(b, seen), (removal(git_dir, kind), failed)];
    let s5 = seq![(b, failed)];
    assert(s1 =~= seq![(a, seen)] + seq![(removal(git, kind), done)]);
    assert(s3 =~= seq![(b, seen)] + seq![(removal(git_dir, kind), done)]);
    assert(s4 =~= seq![(b, seen)] + seq![(removal(git_dir, kind), failed)]);
    assert forall|talk: Talk| #[trigger] say::has_answers(talk, s1) implies copied(talk) == say::spoken(
        talk,
        s1,
    ).ready(Ok(())) by {
        say::lemma_begin(talk, a, seen, seq![(removal(git, kind), done)]);
        say::lemma_one(talk.after(a), removal(git, kind), done);
    }
    assert forall|talk: Talk| #[trigger] say::has_answers(talk, s2) implies copied(talk) == say::spoken(
        talk,
        s2,
    ).ready(io) by {
        say::lemma_one(talk, a, failed);
    }
    assert forall|talk: Talk| #[trigger] say::has_answers(talk, s3) implies registered(talk) == say::spoken(
        talk,
        s3,
    ).ready(Ok(())) by {
        say::lemma_begin(talk, b, seen, seq![(removal(git_dir, kind), done)]);
        say::lemma_one(talk.after(b), removal(git_dir, kind), done);
    }
    assert forall|talk: Talk| #[trigger] say::has_answers(talk, s4) implies registered(talk) == say::spoken(
        talk,
        s4,
    ).ready(io) by {
        say::lemma_begin(talk, b, seen, seq![(removal(git_dir, kind), failed)]);
        say::lemma_one(talk.after(b), removal(git_dir, kind), failed);
    }
    assert forall|talk: Talk| #[trigger] say::has_answers(talk, s5) implies registered(talk) == say::spoken(
        talk,
        s5,
    ).ready(Ok(())) by {
        say::lemma_one(talk, b, failed);
    }
}

/// The conversation in which the index of the source is looked for, in the directory of its own,
/// and copied where it is there.
pub open spec fn index_copying(
    source: Seq<u8>,
    own: OutputView,
    common: OutputView,
    source_dir: Seq<u8>,
    git_dir: Seq<u8>,
    there: bool,
) -> Seq<Exchange> {
    let index = crate::path::child(source_dir, "index"@);
    let looked = say::lookup(source, own, common);
    if there {
        looked + seq![
            (RequestView::Exists(index), ReplyView::Flag(true)),
            (
                RequestView::CopyFile(index, crate::path::child(git_dir, "index"@)),
                ReplyView::Done,
            ),
        ]
    } else {
        looked + seq![(RequestView::Exists(index), ReplyView::Flag(false))]
    }
}

/// A copy gets the index of its source: that in the directory which Git names for `--git-dir` of
/// the source, also where that is not the common one. Whether there was one is told.
pub proof fn index_comes_from_the_own_directory_of_the_source(
    source: Seq<u8>,
    git_dir: Seq<u8>,
    own: OutputView,
    common: OutputView,
    source_dir: Seq<u8>,
    common_dir: Seq<u8>,
    there: bool,
    no: ReplyView,
)
    requires
        say::names(own, source_dir),
        say::names(common, common_dir),
        no != ReplyView::Flag(true),
    ensures
        say::tells(
            |talk: Talk| crate::worktree::copy_source_index_run(source, git_dir, talk),
            index_copying(source, own, common, source_dir, git_dir, there),
            Ok(there),
        ),
        say::tells(
            |talk: Talk| crate::worktree::copy_source_index_run(source, git_dir, talk),
            seq![(RequestView::Exists(crate::path::child(source, ".git"@)), no)],
            Err(ErrorView::UnsafeGit("source is not a Git repository"@)),
        ),
{
    let operation = |talk: Talk| crate::worktree::copy_source_index_run(source, git_dir, talk);
    let index = crate::path::child(source_dir, "index"@);
    let ask = RequestView::Exists(index);
    let copy = RequestView::CopyFile(index, crate::path::child(git_dir, "index"@));
    let looked = say::lookup(source, own, common);
    let done = ReplyView::Done;
    let yes = ReplyView::Flag(true);
    let missing = ReplyView::Flag(false);
    say::directories_are_those_that_git_names(source, own, common, source_dir, common_dir, no);
    let script = index_copying(source, own, common, source_dir, git_dir, there);
    let copied = seq![(ask, yes), (copy, done)];
    assert(copied =~= seq![(ask, yes)] + seq![(copy, done)]);
    assert forall|talk: Talk| #[trigger] say::has_answers(talk, script) implies operation(talk)
        == say::spoken(talk, script).ready(Ok(there)) by {
        if there {
            say::lemma_split(talk, looked, copied);
            let t = say::spoken(talk, looked);
            say::lemma_begin(t, ask, yes, seq![(copy, done)]);
            say::lemma_one(t.after(ask), copy, done);
        } else {
            say::lemma_split(talk, looked, seq![(ask, missing)]);
            say::lemma_one(say::spoken(talk, looked), ask, missing);
        }
    }
    let absent = seq![(RequestView::Exists(crate::path::child(source, ".git"@)), no)];
    let refused: Result<bool, ErrorView> = Err(
        ErrorView::UnsafeGit("source is not a Git repository"@),
    );
    assert forall|talk: Talk| #[trigger] say::has_answers(talk, absent) implies operation(talk)
        == say::spoken(talk, absent).ready(refused) by {}
}

/// The files by which a copy and the store come to know each other: the pointer in the copy, and
/// in the metadata the way back to the copy, the way to the common directory, and `HEAD`.
pub open spec fn linking(
    destination: Seq<u8>,
    git_dir: Seq<u8>,
    head: Seq<char>,
) -> Seq<Exchange> {
    let git = crate::path::child(destination, ".git"@);
    let done = ReplyView::Done;
    seq![
        (RequestView::WriteText(git, pointer_text(git_dir)), done),
        (
            RequestView::WriteText(
                crate::path::child(git_dir, "gitdir"@),
                crate::foreign::lossy_text(git) + "\n"@,
            ),
            done,
        ),
        (RequestView::WriteText(crate::path::child(git_dir, "commondir"@), "../..\n"@), done),
        (RequestView::WriteText(crate::path::child(git_dir, "HEAD"@), head), done),
    ]
}

/// What Git is asked at the end of a registration. Without an index to copy, it builds one from the
/// commit, where there is a commit; then it has to accept the copy and to list its worktrees.
pub open spec fn accepting(
    root_git_dir: Seq<u8>,
    destination: Seq<u8>,
    head: HeadStateView,
    indexed: bool,
    outputs: Seq<OutputView>,
) -> Seq<Exchange> {
    let tree = PlaceView::WorkTree(destination);
    let reset = match head {
        HeadStateView::Commit(commit) if !indexed => seq![
            (
                RequestView::Git(tree, seq!["reset"@, "--mixed"@, "--quiet"@, commit]),
                ReplyView::Printed(outputs[0]),
            ),
        ],
        _ => Seq::empty(),
    };
    reset + seq![
        (
            RequestView::Git(tree, seq!["status"@, "--porcelain"@]),
            ReplyView::Printed(outputs[1]),
        ),
        (
            RequestView::Git(
                PlaceView::GitDir(root_git_dir),
                seq!["worktree"@, "list"@, "--porcelain"@],
            ),
            ReplyView::Printed(outputs[2]),
        ),
    ]
}

/// The text that `HEAD` of a copy holds to say what that of its source says.
pub open spec fn head_text(head: HeadStateView) -> Seq<char> {
    match head {
        HeadStateView::Commit(commit) => commit + "\n"@,
        HeadStateView::Symbolic(contents) => contents,
    }
}

/// The work of a registration: the metadata directory is made, the `.git` that the copy came with
/// is removed, both are linked, the index is that of the source's own directory, and Git accepts
/// the result.
pub open spec fn registering(
    root_git_dir: Seq<u8>,
    source: Seq<u8>,
    destination: Seq<u8>,
    git_dir: Seq<u8>,
    head: HeadStateView,
    kind: EntryKind,
    own: OutputView,
    common: OutputView,
    source_dir: Seq<u8>,
    there: bool,
    outputs: Seq<OutputView>,
) -> Seq<Exchange> {
    let git = crate::path::child(destination, ".git"@);
    seq![(RequestView::CreateDirs(git_dir), ReplyView::Done)] + (seq![
        (RequestView::Inspect(git), ReplyView::Kind(kind)),
        (removal(git, kind), ReplyView::Done),
    ] + (linking(destination, git_dir, head_text(head)) + (index_copying(
        source,
        own,
        common,
        source_dir,
        git_dir,
        there,
    ) + accepting(root_git_dir, destination, head, there, outputs))))
}

#[verifier::spinoff_prover]
proof fn lemma_registering(
    root_git_dir: Seq<u8>,
    source: Seq<u8>,
    destination: Seq<u8>,
    git_dir: Seq<u8>,
    head: HeadStateView,
    kind: EntryKind,
    own: OutputView,
    common: OutputView,
    source_dir: Seq<u8>,
    common_dir: Seq<u8>,
    there: bool,
    outputs: Seq<OutputView>,
    talk: Talk,
)
    requires
        say::names(own, source_dir),
        say::names(common, common_dir),
        outputs.len() == 3,
        outputs[0].success && outputs[1].success && outputs[2].success,
        say::has_answers(
            talk,
            registering(
                root_git_dir,
                source,
                destination,
                git_dir,
                head,
                kind,
                own,
                common,
                source_dir,
                there,
                outputs,
            ),
        ),
    ensures
        crate::worktree::register_work_run(root_git_dir, source, destination, git_dir, head, talk)
            == say::spoken(
            talk,
            registering(
                root_git_dir,
                source,
                destination,
                git_dir,
                head,
                kind,
                own,
                common,
                source_dir,
                there,
                outputs,
            ),
        ).ready(Ok(())),
{
    let git = crate::path::child(destination, ".git"@);
    let make = RequestView::CreateDirs(git_dir);
    let done = ReplyView::Done;
    let links = linking(destination, git_dir, head_text(head));
    let completed = index_copying(source, own, common, source_dir, git_dir, there) + accepting(
        root_git_dir,
        destination,
        head,
        there,
        outputs,
    );
    let failure = FailureView { kind: FailureKind::Other, message: Seq::empty() };
    metadata_is_removed_whatever_it_is(destination, git_dir, kind, failure);
    let steps = crate::worktree::link_steps(destination, git_dir, head);
    assert(head.contents() == head_text(head));
    plans_stop_at_the_first_failure(steps, links, done, ErrorView::Unexpected);
    let removed = seq![
        (RequestView::Inspect(git), ReplyView::Kind(kind)),
        (removal(git, kind), done),
    ];
    say::lemma_begin(talk, make, done, removed + (links + completed));
    let t2 = talk.after(make);
    say::lemma_split(t2, removed, links + completed);
    let t3 = say::spoken(t2, removed);
    say::lemma_split(t3, links, completed);
    lemma_completed(
        root_git_dir,
        source,
        destination,
        git_dir,
        head,
        own,
        common,
        source_dir,
        common_dir,
        there,
        outputs,
        say::spoken(t3, links),
    );
}

/// Registering a copy makes its metadata in `worktrees/<id>` of the store and answers with that
/// place; where something stands there already, it is refused.
pub proof fn registration_makes_a_linked_worktree(
    root_git_dir: Seq<u8>,
    source: Seq<u8>,
    destination: Seq<u8>,
    id: Seq<char>,
    head: HeadStateView,
    head_said: Seq<Exchange>,
    kind: EntryKind,
    own: OutputView,
    common: OutputView,
    source_dir: Seq<u8>,
    common_dir: Seq<u8>,
    there: bool,
    outputs: Seq<OutputView>,
    no: ReplyView,
)
    requires
        say::tells(
            |talk: Talk| crate::worktree::head_state_run(source, talk),
            head_said,
            Ok(head),
        ),
        say::names(own, source_dir),
        say::names(common, common_dir),
        no != ReplyView::Flag(true),
        outputs.len() == 3,
        outputs[0].success && outputs[1].success && outputs[2].success,
    ensures
        ({
            let git_dir = crate::path::child(
                crate::path::child(root_git_dir, "worktrees"@),
                id,
            );
            let register = |talk: Talk|
                crate::worktree::register_cow_clone_run(
                    root_git_dir,
                    source,
                    destination,
                    id,
                    talk,
                );
            &&& say::tells(
                register,
                head_said + (seq![(RequestView::Exists(git_dir), no)] + registering(
                    root_git_dir,
                    source,
                    destination,
                    git_dir,
                    head,
                    kind,
                    own,
                    common,
                    source_dir,
                    there,
                    outputs,
                )),
                Ok(git_dir),
            )
            &&& say::tells(
                register,
                head_said + seq![(RequestView::Exists(git_dir), ReplyView::Flag(true))],
                Err(ErrorView::AlreadyExists(git_dir)),
            )
        }),
{
    let git_dir = crate::path::child(crate::path::child(root_git_dir, "worktrees"@), id);
    let register = |talk: Talk|
        crate::worktree::register_cow_clone_run(root_git_dir, source, destination, id, talk);
    let ask = RequestView::Exists(git_dir);
    let yes = ReplyView::Flag(true);
    let work = registering(
        root_git_dir,
        source,
        destination,
        git_dir,
        head,
        kind,
        own,
        common,
        source_dir,
        there,
        outputs,
    );
    let rest = seq![(ask, no)] + work;
    assert forall|talk: Talk| #[trigger]
        say::has_answers(talk, head_said + rest) implies register(talk) == say::spoken(
        talk,
        head_said + rest,
    ).ready(Ok(git_dir)) by {
        say::lemma_split(talk, head_said, rest);
        let t = say::spoken(talk, head_said);
        say::lemma_begin(t, ask, no, work);
        lemma_registering(
            root_git_dir,
            source,
            destination,
            git_dir,
            head,
            kind,
            own,
            common,
            source_dir,
            common_dir,
            there,
            outputs,
            t.after(ask),
        );
    }
    let taken: Result<Seq<u8>, ErrorView> = Err(ErrorView::AlreadyExists(git_dir));
    let stop = seq![(ask, yes)];
    assert forall|talk: Talk| #[trigger]
        say::has_answers(talk, head_said + stop) implies register(talk) == say::spoken(
        talk,
        head_said + stop,
    ).ready(taken) by {
        say::lemma_split(talk, head_said, stop);
        say::lemma_one(say::spoken(talk, head_said), ask, yes);
    }
}

proof fn lemma_completed(
    root_git_dir: Seq<u8>,
    source: Seq<u8>,
    destination: Seq<u8>,
    git_dir: Seq<u8>,
    head: HeadStateView,
    own: OutputView,
    common: OutputView,
    source_dir: Seq<u8>,
    common_dir: Seq<u8>,
    there: bool,
    outputs: Seq<OutputView>,
    talk: Talk,
)
    requires
        say::names(own, source_dir),
        say::names(common, common_dir),
        outputs.len() == 3,
        outputs[0].success && outputs[1].success && outputs[2].success,
        say::has_answers(
            talk,
            index_copying(source, own, common, source_dir, git_dir, there) + accepting(
                root_git_dir,
                destination,
                head,
                there,
                outputs,
            ),
        ),
    ensures
        crate::worktree::complete_run(root_git_dir, source, destination, git_dir, head, talk)
            == say::spoken(
            talk,
            index_copying(source, own, common, source_dir, git_dir, there) + accepting(
                root_git_dir,
                destination,
                head,
                there,
                outputs,
            ),
        ).ready(Ok(())),
{
    let index = index_copying(source, own, common, source_dir, git_dir, there);
    let accepted = accepting(root_git_dir, destination, head, there, outputs);
    let no = ReplyView::Flag(false);
    index_comes_from_the_own_directory_of_the_source(
        source,
        git_dir,
        own,
        common,
        source_dir,
        common_dir,
        there,
        no,
    );
    say::lemma_split(talk, index, accepted);
    let t = say::spoken(talk, index);
    let status = RequestView::Git(
        PlaceView::WorkTree(destination),
        seq!["status"@, "--porcelain"@],
    );
    let list = RequestView::Git(
        PlaceView::GitDir(root_git_dir),
        seq!["worktree"@, "list"@, "--porcelain"@],
    );
    let a = seq![(status, ReplyView::Printed(outputs[1]))];
    let b = seq![(list, ReplyView::Printed(outputs[2]))];
    let words = match head {
        HeadStateView::Commit(commit) => seq!["reset"@, "--mixed"@, "--quiet"@, commit],
        HeadStateView::Symbolic(_) => Seq::empty(),
    };
    git_commands_are_these(root_git_dir, destination, words, outputs[0]);
    git_commands_are_these(root_git_dir, destination, words, outputs[1]);
    git_commands_are_these(root_git_dir, destination, words, outputs[2]);
    if head is Commit && !there {
        let reset = RequestView::Git(PlaceView::WorkTree(destination), words);
        let r = seq![(reset, ReplyView::Printed(outputs[0]))];
        assert(accepted =~= r + (a + b));
        say::lemma_split(t, r, a + b);
        say::lemma_split(say::spoken(t, r), a, b);
    } else {
        assert(accepted =~= a + b);
        say::lemma_split(t, a, b);
    }
}

/// A store is removed with the directory it is in, where that is there; nothing else is asked for.
/// A path that cannot be that of a store of the root is refused without a request.
pub proof fn removal_of_a_store_is_that_of_its_directory(
    shared_git_dir: Seq<u8>,
    root_id: Seq<char>,
    parent: Seq<u8>,
    no: ReplyView,
    failure: FailureView,
)
    requires
        crate::path::parent_of(shared_git_dir) == Some(parent),
        no != ReplyView::Flag(true),
    ensures
        ({
            let remove = |talk: Talk|
                crate::worktree::remove_shared_run(shared_git_dir, root_id, talk);
            let there = RequestView::Exists(parent);
            let gone = RequestView::RemoveTree(parent);
            let yes = ReplyView::Flag(true);
            let a_store = !crate::path::parts(shared_git_dir).contains(crate::path::Part::Up)
                && crate::path::name_of(shared_git_dir) == Some(encode_utf8("git"@))
                && crate::path::name_of(parent) == Some(encode_utf8(root_id));
            &&& a_store ==> say::tells(remove, seq![(there, yes), (gone, ReplyView::Done)], Ok(()))
            &&& a_store ==> say::tells(
                remove,
                seq![(there, yes), (gone, ReplyView::Failed(failure))],
                Err(ErrorView::Io(failure)),
            )
            &&& a_store ==> say::tells(remove, seq![(there, no)], Ok(()))
            &&& !a_store ==> say::tells(
                remove,
                Seq::empty(),
                Err(
                    ErrorView::UnsafeGit(
                        "refusing to remove shared Git storage outside Rift repository storage: "@
                            + crate::foreign::lossy_text(shared_git_dir),
                    ),
                ),
            )
        }),
{
    let remove = |talk: Talk| crate::worktree::remove_shared_run(shared_git_dir, root_id, talk);
    let there = RequestView::Exists(parent);
    let gone = RequestView::RemoveTree(parent);
    let yes = ReplyView::Flag(true);
    let done = ReplyView::Done;
    let failed = ReplyView::Failed(failure);
    let io: Result<(), ErrorView> = Err(ErrorView::Io(failure));
    let refused: Result<(), ErrorView> = Err(
        ErrorView::UnsafeGit(
            "refusing to remove shared Git storage outside Rift repository storage: "@
                + crate::foreign::lossy_text(shared_git_dir),
        ),
    );
    let a_store = !crate::path::parts(shared_git_dir).contains(crate::path::Part::Up)
        && crate::path::name_of(shared_git_dir) == Some(encode_utf8("git"@))
        && crate::path::name_of(parent) == Some(encode_utf8(root_id));
    if a_store {
        let s1 = seq![(there, yes), (gone, done)];
        let s2 = seq![(there, yes), (gone, failed)];
        assert(s1 =~= seq![(there, yes)] + seq![(gone, done)]);
        assert(s2 =~= seq![(there, yes)] + seq![(gone, failed)]);
        assert forall|talk: Talk| #[trigger] say::has_answers(talk, s1) implies remove(talk) == say::spoken(
            talk,
            s1,
        ).ready(Ok(())) by {
            say::lemma_begin(talk, there, yes, seq![(gone, done)]);
            say::lemma_one(talk.after(there), gone, done);
        }
        assert forall|talk: Talk| #[trigger] say::has_answers(talk, s2) implies remove(talk) == say::spoken(
            talk,
            s2,
        ).ready(io) by {
            say::lemma_begin(talk, there, yes, seq![(gone, failed)]);
            say::lemma_one(talk.after(there), gone, failed);
        }
        assert forall|talk: Talk| #[trigger] say::has_answers(talk, seq![(there, no)]) implies remove(
            talk,
        ) == say::spoken(talk, seq![(there, no)]).ready(Ok(())) by {
            say::lemma_one(talk, there, no);
        }
    } else {
        let nothing = Seq::<Exchange>::empty();
        assert forall|talk: Talk| #[trigger] say::has_answers(talk, nothing) implies remove(talk)
            == say::spoken(talk, nothing).ready(refused) by {
            say::lemma_none(talk);
        }
    }
}

/// A restoration is refused where a directory and a shared repository are both there, and where
/// neither is.
pub proof fn restoration_needs_one_repository(
    worktree: Seq<u8>,
    shared_git_dir: Seq<u8>,
    kind: EntryKind,
    no: ReplyView,
)
    requires
        no != ReplyView::Flag(true),
    ensures
        ({
            let validate = |talk: Talk|
                crate::worktree::validate_restore_run(worktree, shared_git_dir, talk);
            let git = crate::path::child(worktree, ".git"@);
            let there = RequestView::Exists(git);
            let inspect = RequestView::Inspect(git);
            let shared = RequestView::Exists(shared_git_dir);
            let inline = RequestView::IsDir(git);
            let yes = ReplyView::Flag(true);
            let directory = ReplyView::Kind(EntryKind::Directory);
            let missing = Err(
                ErrorView::UnsafeGit(
                    "shared Git directory is missing: "@ + crate::foreign::lossy_text(
                        shared_git_dir,
                    ),
                ),
            );
            &&& say::tells(
                validate,
                seq![(there, yes), (inspect, directory), (shared, yes)],
                Err(
                    ErrorView::UnsafeGit(
                        "cannot restore inline Git metadata over existing directory: "@
                            + crate::foreign::lossy_text(git),
                    ),
                ),
            )
            &&& say::tells(
                validate,
                seq![(there, yes), (inspect, directory), (shared, no), (inline, yes)],
                Ok(()),
            )
            &&& kind != EntryKind::Directory ==> say::tells(
                validate,
                seq![(there, yes), (inspect, ReplyView::Kind(kind)), (inline, no), (shared, yes)],
                Ok(()),
            )
            &&& kind != EntryKind::Directory ==> say::tells(
                validate,
                seq![(there, yes), (inspect, ReplyView::Kind(kind)), (inline, no), (shared, no)],
                missing,
            )
            &&& say::tells(validate, seq![(there, no), (inline, no), (shared, yes)], Ok(()))
            &&& say::tells(validate, seq![(there, no), (inline, no), (shared, no)], missing)
        }),
{
    let validate = |talk: Talk|
        crate::worktree::validate_restore_run(worktree, shared_git_dir, talk);
    let git = crate::path::child(worktree, ".git"@);
    let there = RequestView::Exists(git);
    let inspect = RequestView::Inspect(git);
    let shared = RequestView::Exists(shared_git_dir);
    let inline = RequestView::IsDir(git);
    let yes = ReplyView::Flag(true);
    let directory = ReplyView::Kind(EntryKind::Directory);
    let seen = ReplyView::Kind(kind);
    let blocked: Result<(), ErrorView> = Err(
        ErrorView::UnsafeGit(
            "cannot restore inline Git metadata over existing directory: "@
                + crate::foreign::lossy_text(git),
        ),
    );
    let missing: Result<(), ErrorView> = Err(
        ErrorView::UnsafeGit(
            "shared Git directory is missing: "@ + crate::foreign::lossy_text(shared_git_dir),
        ),
    );
    let s1 = seq![(there, yes), (inspect, directory), (shared, yes)];
    let s2 = seq![(there, yes), (inspect, directory), (shared, no), (inline, yes)];
    assert(s1 =~= seq![(there, yes)] + (seq![(inspect, directory)] + seq![(shared, yes)]));
    assert(s2 =~= seq![(there, yes)] + (seq![(inspect, directory)] + (seq![(shared, no)] + seq![
        (inline, yes),
    ])));
    assert forall|talk: Talk| #[trigger] say::has_answers(talk, s1) implies validate(talk) == say::spoken(
        talk,
        s1,
    ).ready(blocked) by {
        say::lemma_begin(talk, there, yes, seq![(inspect, directory)] + seq![(shared, yes)]);
        say::lemma_begin(talk.after(there), inspect, directory, seq![(shared, yes)]);
        say::lemma_one(talk.after(there).after(inspect), shared, yes);
    }
    assert forall|talk: Talk| #[trigger] say::has_answers(talk, s2) implies validate(talk) == say::spoken(
        talk,
        s2,
    ).ready(Ok(())) by {
        let c = seq![(shared, no)] + seq![(inline, yes)];
        say::lemma_begin(talk, there, yes, seq![(inspect, directory)] + c);
        say::lemma_begin(talk.after(there), inspect, directory, c);
        let t = talk.after(there).after(inspect);
        say::lemma_begin(t, shared, no, seq![(inline, yes)]);
        say::lemma_one(t.after(shared), inline, yes);
    }
    let found: Result<(), ErrorView> = Ok(());
    lemma_neither(worktree, shared_git_dir, kind, no, yes, found);
    lemma_neither(worktree, shared_git_dir, kind, no, no, missing);
}

proof fn lemma_neither(
    worktree: Seq<u8>,
    shared_git_dir: Seq<u8>,
    kind: EntryKind,
    no: ReplyView,
    answer: ReplyView,
    out: Result<(), ErrorView>,
)
    requires
        no != ReplyView::Flag(true),
        out == (if answer == ReplyView::Flag(true) {
            Ok(())
        } else {
            Err(
                ErrorView::UnsafeGit(
                    "shared Git directory is missing: "@ + crate::foreign::lossy_text(
                        shared_git_dir,
                    ),
                ),
            )
        }),
    ensures
        ({
            let validate = |talk: Talk|
                crate::worktree::validate_restore_run(worktree, shared_git_dir, talk);
            let git = crate::path::child(worktree, ".git"@);
            let there = RequestView::Exists(git);
            let inspect = RequestView::Inspect(git);
            let shared = RequestView::Exists(shared_git_dir);
            let inline = RequestView::IsDir(git);
            let yes = ReplyView::Flag(true);
            &&& kind != EntryKind::Directory ==> say::tells(
                validate,
                seq![
                    (there, yes),
                    (inspect, ReplyView::Kind(kind)),
                    (inline, no),
                    (shared, answer),
                ],
                out,
            )
            &&& say::tells(validate, seq![(there, no), (inline, no), (shared, answer)], out)
        }),
{
    let validate = |talk: Talk|
        crate::worktree::validate_restore_run(worktree, shared_git_dir, talk);
    let git = crate::path::child(worktree, ".git"@);
    let there = RequestView::Exists(git);
    let inspect = RequestView::Inspect(git);
    let shared = RequestView::Exists(shared_git_dir);
    let inline = RequestView::IsDir(git);
    let yes = ReplyView::Flag(true);
    let seen = ReplyView::Kind(kind);
    let c = seq![(inline, no)] + seq![(shared, answer)];
    let s1 = seq![(there, yes), (inspect, seen), (inline, no), (shared, answer)];
    let s2 = seq![(there, no), (inline, no), (shared, answer)];
    assert(s1 =~= seq![(there, yes)] + (seq![(inspect, seen)] + c));
    assert(s2 =~= seq![(there, no)] + c);
    if kind != EntryKind::Directory {
        assert forall|talk: Talk| #[trigger] say::has_answers(talk, s1) implies validate(talk)
            == say::spoken(talk, s1).ready(out) by {
            say::lemma_begin(talk, there, yes, seq![(inspect, seen)] + c);
            say::lemma_begin(talk.after(there), inspect, seen, c);
            let t = talk.after(there).after(inspect);
            say::lemma_begin(t, inline, no, seq![(shared, answer)]);
            say::lemma_one(t.after(inline), shared, answer);
        }
    }
    assert forall|talk: Talk| #[trigger] say::has_answers(talk, s2) implies validate(talk) == say::spoken(
        talk,
        s2,
    ).ready(out) by {
        say::lemma_begin(talk, there, no, c);
        say::lemma_begin(talk.after(there), inline, no, seq![(shared, answer)]);
        say::lemma_one(talk.after(there).after(inline), shared, answer);
    }
}

/// How a restoration ends once the repository is at its inline place.
pub open spec fn settling(
    git: Seq<u8>,
    parent: Seq<u8>,
    output: OutputView,
    one: ReplyView,
    two: ReplyView,
) -> Seq<Exchange> {
    seq![
        (unset_request(git), one),
        (config(git, "core.bare"@, "false"@), ReplyView::Printed(output)),
        (RequestView::RemoveDir(parent), two),
    ]
}

proof fn lemma_settling(
    git: Seq<u8>,
    worktree: Seq<u8>,
    shared_git_dir: Seq<u8>,
    parent: Seq<u8>,
    output: OutputView,
    one: ReplyView,
    two: ReplyView,
)
    requires
        crate::path::parent_of(shared_git_dir) == Some(parent),
        output.success,
    ensures
        say::tells(
            |talk: Talk| crate::worktree::settle_inline_run(git, shared_git_dir, talk),
            settling(git, parent, output, one, two),
            Ok(()),
        ),
{
    let settled = settling(git, parent, output, one, two);
    let operation = |talk: Talk| crate::worktree::settle_inline_run(git, shared_git_dir, talk);
    repositories_are_told_where_they_are(git, worktree, output, output, one);
    let told = seq![settled[0], settled[1]];
    let cleared = seq![settled[2]];
    assert(settled =~= told + cleared);
    assert forall|talk: Talk| #[trigger] say::has_answers(talk, settled) implies operation(talk)
        == say::spoken(talk, settled).ready(Ok(())) by {
        say::lemma_split(talk, told, cleared);
        say::lemma_one(say::spoken(talk, told), RequestView::RemoveDir(parent), two);
    }
}

/// A result that is nothing, or an error.
pub open spec fn result_of(wrong: Option<ErrorView>) -> Result<(), ErrorView> {
    match wrong {
        None => Ok(()),
        Some(error) => Err(error),
    }
}

/// How a restoration goes on with the move of the repository: once that is there, it is settled;
/// where the move went wrong, the pointer to the store is written again.
pub open spec fn brought_back(
    git: Seq<u8>,
    shared_git_dir: Seq<u8>,
    parent: Seq<u8>,
    output: OutputView,
    moved: Seq<Exchange>,
    wrong: Option<ErrorView>,
    one: ReplyView,
    two: ReplyView,
) -> Seq<Exchange> {
    match wrong {
        None => moved + settling(git, parent, output, one, two),
        Some(_) => moved + seq![
            (RequestView::WriteText(git, pointer_text(shared_git_dir)), one),
        ],
    }
}

proof fn lemma_bringing_back(
    git: Seq<u8>,
    worktree: Seq<u8>,
    shared_git_dir: Seq<u8>,
    parent: Seq<u8>,
    output: OutputView,
    moved: Seq<Exchange>,
    wrong: Option<ErrorView>,
    one: ReplyView,
    two: ReplyView,
)
    requires
        crate::path::parent_of(shared_git_dir) == Some(parent),
        say::tells(
            |talk: Talk| crate::worktree::move_dir_run(shared_git_dir, git, talk),
            moved,
            result_of(wrong),
        ),
        output.success,
    ensures
        say::tells(
            |talk: Talk| crate::worktree::bring_back_run(git, shared_git_dir, talk),
            brought_back(git, shared_git_dir, parent, output, moved, wrong, one, two),
            result_of(wrong),
        ),
{
    let operation = |talk: Talk| crate::worktree::bring_back_run(git, shared_git_dir, talk);
    let settled = settling(git, parent, output, one, two);
    let point = RequestView::WriteText(git, pointer_text(shared_git_dir));
    let ending = brought_back(git, shared_git_dir, parent, output, moved, wrong, one, two);
    lemma_settling(git, worktree, shared_git_dir, parent, output, one, two);
    assert forall|talk: Talk| #[trigger] say::has_answers(talk, ending) implies operation(talk)
        == say::spoken(talk, ending).ready(result_of(wrong)) by {
        if wrong is None {
            say::lemma_split(talk, moved, settled);
        } else {
            say::lemma_split(talk, moved, seq![(point, one)]);
            say::lemma_one(say::spoken(talk, moved), point, one);
        }
    }
}

proof fn lemma_back_over_a_pointer(
    worktree: Seq<u8>,
    shared_git_dir: Seq<u8>,
    checked: Seq<Exchange>,
    kind: EntryKind,
    talk: Talk,
)
    requires
        say::tells(
            |talk: Talk| crate::worktree::validate_restore_run(worktree, shared_git_dir, talk),
            checked,
            Ok(()),
        ),
        kind != EntryKind::Directory,
        ({
            let git = crate::path::child(worktree, ".git"@);
            say::has_answers(
                talk,
                checked + seq![
                    (RequestView::Exists(git), ReplyView::Flag(true)),
                    (RequestView::Inspect(git), ReplyView::Kind(kind)),
                    (RequestView::RemoveFile(git), ReplyView::Done),
                ],
            )
        }),
    ensures
        ({
            let git = crate::path::child(worktree, ".git"@);
            crate::worktree::restore_inline_root_run(worktree, shared_git_dir, talk)
                == crate::worktree::bring_back_run(
                git,
                shared_git_dir,
                say::spoken(
                    talk,
                    checked + seq![
                        (RequestView::Exists(git), ReplyView::Flag(true)),
                        (RequestView::Inspect(git), ReplyView::Kind(kind)),
                        (RequestView::RemoveFile(git), ReplyView::Done),
                    ],
                ),
            )
        }),
{
    let git = crate::path::child(worktree, ".git"@);
    let there = RequestView::Exists(git);
    let inspect = RequestView::Inspect(git);
    let remove = RequestView::RemoveFile(git);
    let yes = ReplyView::Flag(true);
    let done = ReplyView::Done;
    let seen = ReplyView::Kind(kind);
    let p = seq![(there, yes), (inspect, seen), (remove, done)];
    say::lemma_split(talk, checked, p);
    let t = say::spoken(talk, checked);
    assert(p =~= seq![(there, yes)] + (seq![(inspect, seen)] + seq![(remove, done)]));
    say::lemma_begin(t, there, yes, seq![(inspect, seen)] + seq![(remove, done)]);
    say::lemma_begin(t.after(there), inspect, seen, seq![(remove, done)]);
    say::lemma_one(t.after(there).after(inspect), remove, done);
}

/// Restoring moves the shared repository to the inline place, in the place of the pointer there.
pub proof fn restoration_replaces_the_pointer(
    worktree: Seq<u8>,
    shared_git_dir: Seq<u8>,
    parent: Seq<u8>,
    checked: Seq<Exchange>,
    kind: EntryKind,
    output: OutputView,
    moved: Seq<Exchange>,
    wrong: Option<ErrorView>,
    one: ReplyView,
    two: ReplyView,
)
    requires
        say::tells(
            |talk: Talk| crate::worktree::validate_restore_run(worktree, shared_git_dir, talk),
            checked,
            Ok(()),
        ),
        crate::path::parent_of(shared_git_dir) == Some(parent),
        output.success,
        say::tells(
            |talk: Talk|
                crate::worktree::move_dir_run(
                    shared_git_dir,
                    crate::path::child(worktree, ".git"@),
                    talk,
                ),
            moved,
            result_of(wrong),
        ),
        kind != EntryKind::Directory,
    ensures
        ({
            let git = crate::path::child(worktree, ".git"@);
            let pointed = checked + seq![
                (RequestView::Exists(git), ReplyView::Flag(true)),
                (RequestView::Inspect(git), ReplyView::Kind(kind)),
                (RequestView::RemoveFile(git), ReplyView::Done),
            ];
            say::tells(
                |talk: Talk|
                    crate::worktree::restore_inline_root_run(worktree, shared_git_dir, talk),
                pointed + brought_back(
                    git,
                    shared_git_dir,
                    parent,
                    output,
                    moved,
                    wrong,
                    one,
                    two,
                ),
                result_of(wrong),
            )
        }),
{
    let git = crate::path::child(worktree, ".git"@);
    let restore = |talk: Talk|
        crate::worktree::restore_inline_root_run(worktree, shared_git_dir, talk);
    let back = |talk: Talk| crate::worktree::bring_back_run(git, shared_git_dir, talk);
    let pointed = checked + seq![
        (RequestView::Exists(git), ReplyView::Flag(true)),
        (RequestView::Inspect(git), ReplyView::Kind(kind)),
        (RequestView::RemoveFile(git), ReplyView::Done),
    ];
    let ending = brought_back(git, shared_git_dir, parent, output, moved, wrong, one, two);
    lemma_bringing_back(git, worktree, shared_git_dir, parent, output, moved, wrong, one, two);
    assert forall|talk: Talk| #[trigger]
        say::has_answers(talk, pointed + ending) implies restore(talk) == say::spoken(
        talk,
        pointed + ending,
    ).ready(result_of(wrong)) by {
        say::lemma_split(talk, pointed, ending);
        lemma_back_over_a_pointer(worktree, shared_git_dir, checked, kind, talk);
        assert(back(say::spoken(talk, pointed)) == restore(talk));
    }
}

/// Restoring moves the shared repository to an inline place where nothing stands.
pub proof fn restoration_fills_an_empty_place(
    worktree: Seq<u8>,
    shared_git_dir: Seq<u8>,
    parent: Seq<u8>,
    checked: Seq<Exchange>,
    output: OutputView,
    moved: Seq<Exchange>,
    wrong: Option<ErrorView>,
    one: ReplyView,
    two: ReplyView,
    no: ReplyView,
)
    requires
        say::tells(
            |talk: Talk| crate::worktree::validate_restore_run(worktree, shared_git_dir, talk),
            checked,
            Ok(()),
        ),
        crate::path::parent_of(shared_git_dir) == Some(parent),
        output.success,
        say::tells(
            |talk: Talk|
                crate::worktree::move_dir_run(
                    shared_git_dir,
                    crate::path::child(worktree, ".git"@),
                    talk,
                ),
            moved,
            result_of(wrong),
        ),
        no != ReplyView::Flag(true),
    ensures
        ({
            let git = crate::path::child(worktree, ".git"@);
            say::tells(
                |talk: Talk|
                    crate::worktree::restore_inline_root_run(worktree, shared_git_dir, talk),
                checked + seq![(RequestView::Exists(git), no)] + brought_back(
                    git,
                    shared_git_dir,
                    parent,
                    output,
                    moved,
                    wrong,
                    one,
                    two,
                ),
                result_of(wrong),
            )
        }),
{
    let git = crate::path::child(worktree, ".git"@);
    let there = RequestView::Exists(git);
    let restore = |talk: Talk|
        crate::worktree::restore_inline_root_run(worktree, shared_git_dir, talk);
    let back = |talk: Talk| crate::worktree::bring_back_run(git, shared_git_dir, talk);
    let free = checked + seq![(there, no)];
    let ending = brought_back(git, shared_git_dir, parent, output, moved, wrong, one, two);
    lemma_bringing_back(git, worktree, shared_git_dir, parent, output, moved, wrong, one, two);
    assert forall|talk: Talk| #[trigger]
        say::has_answers(talk, free + ending) implies restore(talk) == say::spoken(
        talk,
        free + ending,
    ).ready(result_of(wrong)) by {
        say::lemma_split(talk, free, ending);
        say::lemma_split(talk, checked, seq![(there, no)]);
        say::lemma_one(say::spoken(talk, checked), there, no);
        assert(back(say::spoken(talk, free)) == restore(talk));
    }
}

/// A repository that is inline already is told where it is, and not moved.
pub proof fn restoration_settles_an_inline_repository(
    worktree: Seq<u8>,
    shared_git_dir: Seq<u8>,
    parent: Seq<u8>,
    checked: Seq<Exchange>,
    output: OutputView,
    one: ReplyView,
    two: ReplyView,
    no: ReplyView,
)
    requires
        say::tells(
            |talk: Talk| crate::worktree::validate_restore_run(worktree, shared_git_dir, talk),
            checked,
            Ok(()),
        ),
        crate::path::parent_of(shared_git_dir) == Some(parent),
        output.success,
        no != ReplyView::Flag(true),
    ensures
        ({
            let git = crate::path::child(worktree, ".git"@);
            say::tells(
                |talk: Talk|
                    crate::worktree::restore_inline_root_run(worktree, shared_git_dir, talk),
                checked + (seq![
                    (RequestView::Exists(git), ReplyView::Flag(true)),
                    (RequestView::Inspect(git), ReplyView::Kind(EntryKind::Directory)),
                    (RequestView::Exists(shared_git_dir), no),
                ] + settling(git, parent, output, one, two)),
                Ok(()),
            )
        }),
{
    let git = crate::path::child(worktree, ".git"@);
    let there = RequestView::Exists(git);
    let inspect = RequestView::Inspect(git);
    let shared = RequestView::Exists(shared_git_dir);
    let yes = ReplyView::Flag(true);
    let directory = ReplyView::Kind(EntryKind::Directory);
    let settled = settling(git, parent, output, one, two);
    let restore = |talk: Talk|
        crate::worktree::restore_inline_root_run(worktree, shared_git_dir, talk);
    lemma_settling(git, worktree, shared_git_dir, parent, output, one, two);
    let i = seq![(there, yes), (inspect, directory), (shared, no)];
    let c = seq![(shared, no)] + settled;
    assert(i + settled =~= seq![(there, yes)] + (seq![(inspect, directory)] + c));
    assert forall|talk: Talk| #[trigger]
        say::has_answers(talk, checked + (i + settled)) implies restore(talk) == say::spoken(
        talk,
        checked + (i + settled),
    ).ready(Ok(())) by {
        say::lemma_split(talk, checked, i + settled);
        let t = say::spoken(talk, checked);
        say::lemma_begin(t, there, yes, seq![(inspect, directory)] + c);
        say::lemma_begin(t.after(there), inspect, directory, c);
        say::lemma_begin(t.after(there).after(inspect), shared, no, settled);
    }
}

} // verus!
