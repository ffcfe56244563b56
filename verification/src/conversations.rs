//! What each operation asks for, and what it makes of the answers.
//!
//! A law here gives a conversation: the requests that an operation makes, each with the answer it
//! gets, and the result that the operation then has. It holds of all arguments and of all answers
//! of the kind that it speaks of.

use crate::dialogue::{OutputView, PlaceView, ReplyView, RequestView, Run, Talk};
use crate::error::{ErrorView, FailureKind, FailureView};
use crate::git::{GitDirsView, Source};
use vstd::prelude::*;
use vstd::utf8::*;

verus! {

/// A request and the answer that it gets.
pub type Exchange = (RequestView, ReplyView);

/// Whether the answers at hand begin with those of a conversation.
pub open spec fn has_answers(talk: Talk, script: Seq<Exchange>) -> bool {
    &&& talk.rest.len() >= script.len()
    &&& forall|k: int| 0 <= k < script.len() ==> talk.rest[k] == (#[trigger] script[k]).1
}

/// What has been said once a conversation has been had.
pub open spec fn spoken(talk: Talk, script: Seq<Exchange>) -> Talk {
    Talk {
        answers: talk.answers,
        asked: talk.asked + script.map_values(|exchange: Exchange| exchange.0),
        rest: talk.rest.skip(script.len() as int),
    }
}

/// Whether an operation that gets the answers of a conversation makes just the requests of it, in
/// that order, and comes to the given result.
pub open spec fn tells<T>(
    operation: spec_fn(Talk) -> Run<T>,
    script: Seq<Exchange>,
    out: Result<T, ErrorView>,
) -> bool {
    forall|talk: Talk| #[trigger]
        has_answers(talk, script) ==> operation(talk) == spoken(talk, script).ready(out)
}

pub proof fn lemma_split(talk: Talk, first: Seq<Exchange>, second: Seq<Exchange>)
    requires
        has_answers(talk, first + second),
    ensures
        has_answers(talk, first),
        has_answers(spoken(talk, first), second),
        spoken(spoken(talk, first), second) == spoken(talk, first + second),
{
    let both = first + second;
    assert forall|k: int| 0 <= k < first.len() implies talk.rest[k] == (#[trigger] first[k]).1 by {
        assert(both[k] == first[k]);
    }
    assert forall|k: int| 0 <= k < second.len() implies spoken(talk, first).rest[k] == (
    #[trigger] second[k]).1 by {
        assert(both[first.len() + k] == second[k]);
    }
    assert(spoken(spoken(talk, first), second).asked =~= spoken(talk, both).asked);
    assert(spoken(spoken(talk, first), second).rest =~= spoken(talk, both).rest);
}

pub proof fn lemma_one(talk: Talk, request: RequestView, reply: ReplyView)
    requires
        has_answers(talk, seq![(request, reply)]),
    ensures
        talk.next_reply() == Some(reply),
        talk.after(request) == spoken(talk, seq![(request, reply)]),
{
    let script = seq![(request, reply)];
    assert(talk.rest[0] == script[0].1);
    assert(talk.after(request).asked =~= spoken(talk, script).asked);
    assert(talk.after(request).rest =~= spoken(talk, script).rest);
}

pub proof fn lemma_none(talk: Talk)
    ensures
        spoken(talk, Seq::empty()) == talk,
{
    let script = Seq::<Exchange>::empty();
    assert(spoken(talk, script).asked =~= talk.asked);
    assert(spoken(talk, script).rest =~= talk.rest);
}

/// The first exchange of a conversation, and what comes behind it.
pub proof fn lemma_begin(talk: Talk, request: RequestView, reply: ReplyView, rest: Seq<Exchange>)
    requires
        has_answers(talk, seq![(request, reply)] + rest),
    ensures
        talk.next_reply() == Some(reply),
        has_answers(talk.after(request), rest),
        spoken(talk.after(request), rest) == spoken(talk, seq![(request, reply)] + rest),
{
    lemma_split(talk, seq![(request, reply)], rest);
    lemma_one(talk, request, reply);
}

/// The text that a command printed, without the white space around it.
pub open spec fn text_of(bytes: Seq<u8>) -> Seq<char> {
    crate::text::trimmed(crate::foreign::lossy_text(bytes))
}

/// A request that was done succeeds; one that the operating system refused fails as it said.
pub proof fn requests_succeed_or_fail_as_answered(request: RequestView, failure: FailureView)
    ensures
        tells(
            |talk: Talk| talk.perform(request),
            seq![(request, ReplyView::Done)],
            Ok::<(), ErrorView>(()),
        ),
        tells(
            |talk: Talk| talk.perform(request),
            seq![(request, ReplyView::Failed(failure))],
            Err::<(), ErrorView>(ErrorView::Io(failure)),
        ),
{
    let operation = |talk: Talk| talk.perform(request);
    assert forall|talk: Talk| #[trigger]
        has_answers(talk, seq![(request, ReplyView::Done)]) implies operation(talk) == spoken(
        talk,
        seq![(request, ReplyView::Done)],
    ).ready(Ok::<(), ErrorView>(())) by {
        lemma_one(talk, request, ReplyView::Done);
    }
    let failed = ReplyView::Failed(failure);
    assert forall|talk: Talk| #[trigger]
        has_answers(talk, seq![(request, failed)]) implies operation(talk) == spoken(
        talk,
        seq![(request, failed)],
    ).ready(Err::<(), ErrorView>(ErrorView::Io(failure))) by {
        lemma_one(talk, request, failed);
    }
}

/// A Git command that ends well gives what it printed; one that does not fails with a complaint
/// and with what it printed as its error.
pub proof fn commands_end_well_or_with_a_complaint(
    place: PlaceView,
    args: Seq<Seq<char>>,
    complaint: Seq<char>,
    output: OutputView,
    failure: FailureView,
)
    ensures
        tells(
            |talk: Talk| crate::git::command_run(place, args, complaint, talk),
            seq![(RequestView::Git(place, args), ReplyView::Printed(output))],
            if output.success {
                Ok(output.stdout)
            } else {
                Err(ErrorView::UnsafeGit(complaint + ": "@ + text_of(output.stderr)))
            },
        ),
        tells(
            |talk: Talk| crate::git::command_run(place, args, complaint, talk),
            seq![(RequestView::Git(place, args), ReplyView::Failed(failure))],
            Err::<Seq<u8>, ErrorView>(ErrorView::Io(failure)),
        ),
{
    let request = RequestView::Git(place, args);
    let operation = |talk: Talk| crate::git::command_run(place, args, complaint, talk);
    let printed = ReplyView::Printed(output);
    assert forall|talk: Talk| #[trigger]
        has_answers(talk, seq![(request, printed)]) implies operation(talk) == spoken(
        talk,
        seq![(request, printed)],
    ).ready(
        if output.success {
            Ok(output.stdout)
        } else {
            Err(ErrorView::UnsafeGit(complaint + ": "@ + text_of(output.stderr)))
        },
    ) by {
        lemma_one(talk, request, printed);
    }
    let failed = ReplyView::Failed(failure);
    assert forall|talk: Talk| #[trigger]
        has_answers(talk, seq![(request, failed)]) implies operation(talk) == spoken(
        talk,
        seq![(request, failed)],
    ).ready(Err::<Seq<u8>, ErrorView>(ErrorView::Io(failure))) by {
        lemma_one(talk, request, failed);
    }
}

/// The request by which Git is asked for a path of the repository at `path`.
pub open spec fn path_request(path: Seq<u8>, flag: Seq<char>) -> RequestView {
    RequestView::Git(
        PlaceView::WorkTree(path),
        seq!["rev-parse"@, "--path-format=absolute"@, flag],
    )
}

/// Git is asked for an absolute path, and what it prints is the path, without the white space
/// around it. A failure and an empty answer are told with the flag.
pub proof fn git_path_is_what_git_prints(path: Seq<u8>, flag: Seq<char>, output: OutputView)
    ensures
        tells(
            |talk: Talk| crate::git::git_path_run(path, flag, talk),
            seq![(path_request(path, flag), ReplyView::Printed(output))],
            if !output.success {
                Err(
                    ErrorView::UnsafeGit(
                        "failed to resolve Git path with "@ + flag + ": "@ + text_of(
                            output.stderr,
                        ),
                    ),
                )
            } else if text_of(output.stdout).len() == 0 {
                Err(ErrorView::UnsafeGit("Git returned an empty path for "@ + flag))
            } else {
                Ok(encode_utf8(text_of(output.stdout)))
            },
        ),
{
    let request = path_request(path, flag);
    let printed = ReplyView::Printed(output);
    let operation = |talk: Talk| crate::git::git_path_run(path, flag, talk);
    let out = if !output.success {
        Err(
            ErrorView::UnsafeGit(
                "failed to resolve Git path with "@ + flag + ": "@ + text_of(output.stderr),
            ),
        )
    } else if text_of(output.stdout).len() == 0 {
        Err(ErrorView::UnsafeGit("Git returned an empty path for "@ + flag))
    } else {
        Ok(encode_utf8(text_of(output.stdout)))
    };
    assert forall|talk: Talk| #[trigger]
        has_answers(talk, seq![(request, printed)]) implies operation(talk) == spoken(
        talk,
        seq![(request, printed)],
    ).ready(out) by {
        lemma_one(talk, request, printed);
    }
}

/// Whether Git named a path: it ended well and printed more than white space.
pub open spec fn names(output: OutputView, path: Seq<u8>) -> bool {
    &&& output.success
    &&& text_of(output.stdout).len() > 0
    &&& path == encode_utf8(text_of(output.stdout))
}

/// The conversation in which Git names both directories of the repository at `path`: the one of
/// this working tree first, the common one second.
pub open spec fn lookup(path: Seq<u8>, own: OutputView, common: OutputView) -> Seq<Exchange> {
    seq![
        (RequestView::Exists(crate::path::child(path, ".git"@)), ReplyView::Flag(true)),
        (path_request(path, "--git-dir"@), ReplyView::Printed(own)),
        (path_request(path, "--git-common-dir"@), ReplyView::Printed(common)),
    ]
}

/// The directories of a repository are those that Git names: its own one for `--git-dir`, and the
/// common one for `--git-common-dir`. Where there is no `.git`, Git is not asked.
pub proof fn directories_are_those_that_git_names(
    path: Seq<u8>,
    own: OutputView,
    common: OutputView,
    git_dir: Seq<u8>,
    common_dir: Seq<u8>,
    no: ReplyView,
)
    requires
        no != ReplyView::Flag(true),
    ensures
        names(own, git_dir) && names(common, common_dir) ==> tells(
            |talk: Talk| crate::git::resolve_dirs_run(path, talk),
            lookup(path, own, common),
            Ok(Some(GitDirsView { git_dir, common_dir })),
        ),
        tells(
            |talk: Talk| crate::git::resolve_dirs_run(path, talk),
            seq![(RequestView::Exists(crate::path::child(path, ".git"@)), no)],
            Ok(None),
        ),
        !own.success ==> tells(
            |talk: Talk| crate::git::resolve_dirs_run(path, talk),
            lookup(path, own, common).take(2),
            Err(
                ErrorView::UnsafeGit(
                    "failed to resolve Git path with "@ + "--git-dir"@ + ": "@ + text_of(
                        own.stderr,
                    ),
                ),
            ),
        ),
        names(own, git_dir) && !common.success ==> tells(
            |talk: Talk| crate::git::resolve_dirs_run(path, talk),
            lookup(path, own, common),
            Err(
                ErrorView::UnsafeGit(
                    "failed to resolve Git path with "@ + "--git-common-dir"@ + ": "@ + text_of(
                        common.stderr,
                    ),
                ),
            ),
        ),
{
    let git = RequestView::Exists(crate::path::child(path, ".git"@));
    let yes = ReplyView::Flag(true);
    let one = seq![(path_request(path, "--git-dir"@), ReplyView::Printed(own))];
    let two = seq![(path_request(path, "--git-common-dir"@), ReplyView::Printed(common))];
    let operation = |talk: Talk| crate::git::resolve_dirs_run(path, talk);
    git_path_is_what_git_prints(path, "--git-dir"@, own);
    git_path_is_what_git_prints(path, "--git-common-dir"@, common);
    let own_op = |talk: Talk| crate::git::git_path_run(path, "--git-dir"@, talk);
    let common_op = |talk: Talk| crate::git::git_path_run(path, "--git-common-dir"@, talk);
    assert forall|talk: Talk| #[trigger]
        has_answers(talk, seq![(git, no)]) implies operation(talk) == spoken(
        talk,
        seq![(git, no)],
    ).ready(Ok(None::<GitDirsView>)) by {
        lemma_one(talk, git, no);
    }
    let whole = lookup(path, own, common);
    assert(whole =~= seq![(git, yes)] + (one + two));
    assert(whole.take(2) =~= seq![(git, yes)] + one);
    let own_error: Result<Option<GitDirsView>, ErrorView> = Err(
        ErrorView::UnsafeGit(
            "failed to resolve Git path with "@ + "--git-dir"@ + ": "@ + text_of(own.stderr),
        ),
    );
    let common_error: Result<Option<GitDirsView>, ErrorView> = Err(
        ErrorView::UnsafeGit(
            "failed to resolve Git path with "@ + "--git-common-dir"@ + ": "@ + text_of(
                common.stderr,
            ),
        ),
    );
    let found: Result<Option<GitDirsView>, ErrorView> = Ok(
        Some(GitDirsView { git_dir, common_dir }),
    );
    if !own.success {
        assert forall|talk: Talk| #[trigger]
            has_answers(talk, whole.take(2)) implies operation(talk) == spoken(
            talk,
            whole.take(2),
        ).ready(own_error) by {
            lemma_begin(talk, git, yes, one);
            assert(own_op(talk.after(git)) == crate::git::git_path_run(
                path,
                "--git-dir"@,
                talk.after(git),
            ));
        }
    }
    if names(own, git_dir) {
        assert forall|talk: Talk| #[trigger] has_answers(talk, whole) implies (names(
            common,
            common_dir,
        ) ==> operation(talk) == spoken(talk, whole).ready(found)) && (!common.success
            ==> operation(talk) == spoken(talk, whole).ready(common_error)) by {
            lemma_begin(talk, git, yes, one + two);
            let asked = talk.after(git);
            lemma_split(asked, one, two);
            assert(own_op(asked) == crate::git::git_path_run(path, "--git-dir"@, asked));
            let next = spoken(asked, one);
            assert(common_op(next) == crate::git::git_path_run(path, "--git-common-dir"@, next));
        }
    }
}

/// The eight signs of an operation in progress, in the order in which they are looked for.
pub open spec fn signs() -> Seq<Seq<char>> {
    seq![
        "MERGE_HEAD"@,
        "CHERRY_PICK_HEAD"@,
        "REVERT_HEAD"@,
        "BISECT_LOG"@,
        "rebase-merge"@,
        "rebase-apply"@,
        "index.lock"@,
        "HEAD.lock"@,
    ]
}

/// The search for signs in a directory, from number `from` on, as far as there are answers.
pub open spec fn search(git_dir: Seq<u8>, from: int, answers: Seq<ReplyView>) -> Seq<Exchange> {
    Seq::new(
        answers.len(),
        |k: int| (RequestView::Exists(crate::path::child(git_dir, signs()[from + k])), answers[k]),
    )
}

/// Whether a search from number `from` on is at its end: a sign was found at last, or none of
/// those that are left.
pub open spec fn searched(from: int, answers: Seq<ReplyView>) -> bool {
    &&& from + answers.len() <= signs().len()
    &&& forall|k: int|
        0 <= k < answers.len() - 1 ==> #[trigger] answers[k] != ReplyView::Flag(true)
    &&& from + answers.len() == signs().len() || (answers.len() > 0 && answers.last()
        == ReplyView::Flag(true))
}

/// What a search says: that the sign found last is in the way, or that none is.
pub open spec fn verdict(from: int, answers: Seq<ReplyView>) -> Result<(), ErrorView> {
    if answers.len() > 0 && answers.last() == ReplyView::Flag(true) {
        Err(
            ErrorView::UnsafeGit("Git state in progress: "@ + signs()[from + answers.len() - 1]),
        )
    } else {
        Ok(())
    }
}

proof fn lemma_search(git_dir: Seq<u8>, from: int, answers: Seq<ReplyView>, talk: Talk)
    requires
        0 <= from,
        searched(from, answers),
        has_answers(talk, search(git_dir, from, answers)),
    ensures
        crate::git::no_state_run(git_dir, from, talk) == spoken(
            talk,
            search(git_dir, from, answers),
        ).ready(verdict(from, answers)),
    decreases answers.len(),
{
    assert(crate::git::busy_states() =~= signs());
    let script = search(git_dir, from, answers);
    if answers.len() == 0 {
        assert(script =~= Seq::empty());
        lemma_none(talk);
    } else {
        let request = RequestView::Exists(crate::path::child(git_dir, signs()[from]));
        let later = answers.drop_first();
        let rest = search(git_dir, from + 1, later);
        assert(script =~= seq![(request, answers[0])] + rest) by {
            assert forall|k: int| 0 <= k < rest.len() implies #[trigger] script[k + 1]
                == rest[k] by {
                assert(from + 1 + k == from + (k + 1));
            }
        }
        lemma_begin(talk, request, answers[0], rest);
        if answers[0] == ReplyView::Flag(true) {
            assert(answers.len() == 1);
            assert(rest =~= Seq::empty());
            lemma_none(talk.after(request));
        } else {
            assert forall|k: int| 0 <= k < later.len() - 1 implies #[trigger] later[k]
                != ReplyView::Flag(true) by {
                assert(later[k] == answers[k + 1]);
            }
            if later.len() > 0 {
                assert(later.last() == answers.last());
            }
            lemma_search(git_dir, from + 1, later, talk.after(request));
        }
    }
}

/// A repository is searched for signs of an operation in progress in the directory of its own that
/// Git names for `--git-dir`, also where that is not the common one. The first sign found is told;
/// a repository with none is safe, and so is a directory without `.git`.
pub proof fn safe_state_is_looked_for_in_the_own_directory(
    path: Seq<u8>,
    own: OutputView,
    common: OutputView,
    git_dir: Seq<u8>,
    common_dir: Seq<u8>,
    answers: Seq<ReplyView>,
    no: ReplyView,
)
    requires
        names(own, git_dir),
        names(common, common_dir),
        searched(0, answers),
        no != ReplyView::Flag(true),
    ensures
        tells(
            |talk: Talk| crate::git::check_safe_state_run(path, talk),
            lookup(path, own, common) + search(git_dir, 0, answers),
            verdict(0, answers),
        ),
        tells(
            |talk: Talk| crate::git::check_safe_state_run(path, talk),
            seq![(RequestView::Exists(crate::path::child(path, ".git"@)), no)],
            Ok(()),
        ),
{
    let found = lookup(path, own, common);
    let looked = search(git_dir, 0, answers);
    directories_are_those_that_git_names(path, own, common, git_dir, common_dir, no);
    let operation = |talk: Talk| crate::git::check_safe_state_run(path, talk);
    assert forall|talk: Talk| #[trigger]
        has_answers(talk, found + looked) implies operation(talk) == spoken(
        talk,
        found + looked,
    ).ready(verdict(0, answers)) by {
        lemma_split(talk, found, looked);
        lemma_search(git_dir, 0, answers, spoken(talk, found));
    }
}

/// What a source is once its state has been looked at.
pub open spec fn source_by(state: Result<(), ErrorView>) -> Result<Source, ErrorView> {
    match state {
        Ok(_) => Ok(Source::Repository),
        Err(error) => Err(error),
    }
}

/// A source without `.git` is a plain directory. One whose `.git` is no directory is refused. Any
/// other is a repository, unless an operation is in progress in it.
pub proof fn sources_are_told_apart(
    path: Seq<u8>,
    own: OutputView,
    common: OutputView,
    git_dir: Seq<u8>,
    common_dir: Seq<u8>,
    answers: Seq<ReplyView>,
    no: ReplyView,
)
    requires
        names(own, git_dir),
        names(common, common_dir),
        searched(0, answers),
        no != ReplyView::Flag(true),
    ensures
        ({
            let git = crate::path::child(path, ".git"@);
            let check = |talk: Talk| crate::git::check_source_run(path, talk);
            let yes = ReplyView::Flag(true);
            &&& tells(check, seq![(RequestView::Exists(git), no)], Ok(Source::PlainDirectory))
            &&& tells(
                check,
                seq![(RequestView::Exists(git), yes), (RequestView::IsDir(git), no)],
                Err(ErrorView::UnsafeGit("linked Git worktree sources are not supported"@)),
            )
            &&& tells(
                check,
                seq![(RequestView::Exists(git), yes), (RequestView::IsDir(git), yes)] + (lookup(
                    path,
                    own,
                    common,
                ) + search(git_dir, 0, answers)),
                source_by(verdict(0, answers)),
            )
        }),
{
    let git = crate::path::child(path, ".git"@);
    let there = RequestView::Exists(git);
    let directory = RequestView::IsDir(git);
    let yes = ReplyView::Flag(true);
    let check = |talk: Talk| crate::git::check_source_run(path, talk);
    let state = lookup(path, own, common) + search(git_dir, 0, answers);
    safe_state_is_looked_for_in_the_own_directory(
        path,
        own,
        common,
        git_dir,
        common_dir,
        answers,
        no,
    );
    assert forall|talk: Talk| #[trigger] has_answers(talk, seq![(there, no)]) implies check(talk)
        == spoken(talk, seq![(there, no)]).ready(Ok(Source::PlainDirectory)) by {
        lemma_one(talk, there, no);
    }
    let linked: Result<Source, ErrorView> = Err(
        ErrorView::UnsafeGit("linked Git worktree sources are not supported"@),
    );
    let refused = seq![(there, yes), (directory, no)];
    assert(refused =~= seq![(there, yes)] + seq![(directory, no)]);
    assert forall|talk: Talk| #[trigger] has_answers(talk, refused) implies check(talk) == spoken(
        talk,
        refused,
    ).ready(linked) by {
        lemma_begin(talk, there, yes, seq![(directory, no)]);
        lemma_one(talk.after(there), directory, no);
    }
    let begun = seq![(there, yes), (directory, yes)];
    assert(begun + state =~= seq![(there, yes)] + (seq![(directory, yes)] + state));
    assert forall|talk: Talk| #[trigger] has_answers(talk, begun + state) implies check(talk)
        == spoken(talk, begun + state).ready(source_by(verdict(0, answers))) by {
        lemma_begin(talk, there, yes, seq![(directory, yes)] + state);
        lemma_begin(talk.after(there), directory, yes, state);
    }
}

/// Where linked working trees are allowed, any source with `.git` is a repository that Git has to
/// know, and its state is looked for in the directory of its own.
pub proof fn linked_sources_are_looked_at_by_their_own_state(
    path: Seq<u8>,
    own: OutputView,
    common: OutputView,
    git_dir: Seq<u8>,
    common_dir: Seq<u8>,
    answers: Seq<ReplyView>,
    no: ReplyView,
)
    requires
        names(own, git_dir),
        names(common, common_dir),
        searched(0, answers),
        no != ReplyView::Flag(true),
    ensures
        ({
            let there = RequestView::Exists(crate::path::child(path, ".git"@));
            let check = |talk: Talk| crate::git::check_source_allow_worktree_run(path, talk);
            let yes = ReplyView::Flag(true);
            &&& tells(check, seq![(there, no)], Ok(Source::PlainDirectory))
            &&& tells(
                check,
                seq![(there, yes), (there, no)],
                Err(ErrorView::UnsafeGit("invalid Git repository"@)),
            )
            &&& tells(
                check,
                seq![(there, yes)] + (lookup(path, own, common) + (lookup(path, own, common)
                    + search(git_dir, 0, answers))),
                source_by(verdict(0, answers)),
            )
        }),
{
    let there = RequestView::Exists(crate::path::child(path, ".git"@));
    let yes = ReplyView::Flag(true);
    let check = |talk: Talk| crate::git::check_source_allow_worktree_run(path, talk);
    let found = lookup(path, own, common);
    let state = found + search(git_dir, 0, answers);
    safe_state_is_looked_for_in_the_own_directory(
        path,
        own,
        common,
        git_dir,
        common_dir,
        answers,
        no,
    );
    directories_are_those_that_git_names(path, own, common, git_dir, common_dir, no);
    assert forall|talk: Talk| #[trigger] has_answers(talk, seq![(there, no)]) implies check(talk)
        == spoken(talk, seq![(there, no)]).ready(Ok(Source::PlainDirectory)) by {
        lemma_one(talk, there, no);
    }
    let invalid: Result<Source, ErrorView> = Err(ErrorView::UnsafeGit("invalid Git repository"@));
    let refused = seq![(there, yes), (there, no)];
    assert(refused =~= seq![(there, yes)] + seq![(there, no)]);
    assert forall|talk: Talk| #[trigger] has_answers(talk, refused) implies check(talk) == spoken(
        talk,
        refused,
    ).ready(invalid) by {
        lemma_begin(talk, there, yes, seq![(there, no)]);
    }
    assert forall|talk: Talk| #[trigger]
        has_answers(talk, seq![(there, yes)] + (found + state)) implies check(talk) == spoken(
        talk,
        seq![(there, yes)] + (found + state),
    ).ready(source_by(verdict(0, answers))) by {
        lemma_begin(talk, there, yes, found + state);
        lemma_split(talk.after(there), found, state);
    }
}

/// What an exclude file holds once the marker is hidden: all that it held, and a line `/.rift` of
/// its own.
pub open spec fn hidden(existing: Seq<char>) -> Seq<char> {
    if existing.len() == 0 || existing.last() == '\n' {
        existing + "/.rift\n"@
    } else {
        existing + "\n"@ + "/.rift\n"@
    }
}

/// The marker is hidden in `info/exclude` of the common directory that Git names, unless a line
/// there hides it already. A file that is missing counts as empty; one that cannot be read is left
/// alone. A directory without `.git` needs nothing.
pub proof fn marker_is_hidden_in_the_common_directory(
    path: Seq<u8>,
    own: OutputView,
    common: OutputView,
    git_dir: Seq<u8>,
    common_dir: Seq<u8>,
    existing: Seq<char>,
    failure: FailureView,
    no: ReplyView,
)
    requires
        names(own, git_dir),
        names(common, common_dir),
        no != ReplyView::Flag(true),
    ensures
        ({
            let info = crate::path::child(common_dir, "info"@);
            let exclude = crate::path::child(info, "exclude"@);
            let begun = lookup(path, own, common) + seq![
                (RequestView::CreateDirs(info), ReplyView::Done),
            ];
            let read = RequestView::ReadText(exclude);
            let conceal = |talk: Talk| crate::git::hide_marker_run(path, talk);
            &&& crate::text::has_line(existing, "/.rift"@) ==> tells(
                conceal,
                begun + seq![(read, ReplyView::Text(existing))],
                Ok(()),
            )
            &&& !crate::text::has_line(existing, "/.rift"@) ==> tells(
                conceal,
                begun + seq![
                    (read, ReplyView::Text(existing)),
                    (RequestView::WriteText(exclude, hidden(existing)), ReplyView::Done),
                ],
                Ok(()),
            )
            &&& failure.kind == FailureKind::NotFound ==> tells(
                conceal,
                begun + seq![
                    (read, ReplyView::Failed(failure)),
                    (RequestView::WriteText(exclude, "/.rift\n"@), ReplyView::Done),
                ],
                Ok(()),
            )
            &&& failure.kind != FailureKind::NotFound ==> tells(
                conceal,
                begun + seq![(read, ReplyView::Failed(failure))],
                Err(ErrorView::Io(failure)),
            )
            &&& tells(
                conceal,
                seq![(RequestView::Exists(crate::path::child(path, ".git"@)), no)],
                Ok(()),
            )
        }),
{
    let info = crate::path::child(common_dir, "info"@);
    let exclude = crate::path::child(info, "exclude"@);
    let found = lookup(path, own, common);
    let make = RequestView::CreateDirs(info);
    let read = RequestView::ReadText(exclude);
    let begun = found + seq![(make, ReplyView::Done)];
    let conceal = |talk: Talk| crate::git::hide_marker_run(path, talk);
    directories_are_those_that_git_names(path, own, common, git_dir, common_dir, no);
    reveal_strlit("");
    assert(existing + ""@ =~= existing);
    assert(crate::git::with_marker(existing) == hidden(existing));
    let nothing = Seq::<char>::empty();
    assert(crate::git::with_marker(nothing) =~= "/.rift\n"@);
    crate::git_facts::lemma_nothing_hides_nothing();
    let text = ReplyView::Text(existing);
    let failed = ReplyView::Failed(failure);
    let write = RequestView::WriteText(exclude, hidden(existing));
    let write_new = RequestView::WriteText(exclude, "/.rift\n"@);
    assert forall|talk: Talk, rest: Seq<Exchange>| #[trigger]
        has_answers(talk, begun + rest) implies ({
        let t = spoken(talk, begun);
        &&& has_answers(t, rest)
        &&& spoken(t, rest) == spoken(talk, begun + rest)
        &&& conceal(talk) == crate::git::read_or_empty_run(exclude, t).and_then(
            |existing: Seq<char>, t: Talk|
                if crate::git::has_marker(existing) {
                    t.ready(Ok(()))
                } else {
                    t.perform(RequestView::WriteText(exclude, crate::git::with_marker(existing)))
                },
        )
    }) by {
        assert(begun + rest =~= found + (seq![(make, ReplyView::Done)] + rest));
        lemma_split(talk, begun, rest);
        lemma_split(talk, found, seq![(make, ReplyView::Done)] + rest);
        lemma_begin(spoken(talk, found), make, ReplyView::Done, rest);
        lemma_split(spoken(talk, found), seq![(make, ReplyView::Done)], rest);
        lemma_one(spoken(talk, found), make, ReplyView::Done);
        lemma_split(talk, found, seq![(make, ReplyView::Done)]);
    }
    let s1 = seq![(read, text)];
    let s2 = seq![(read, text), (write, ReplyView::Done)];
    let s3 = seq![(read, failed), (write_new, ReplyView::Done)];
    let s4 = seq![(read, failed)];
    assert(s2 =~= seq![(read, text)] + seq![(write, ReplyView::Done)]);
    assert(s3 =~= seq![(read, failed)] + seq![(write_new, ReplyView::Done)]);
    let io: Result<(), ErrorView> = Err(ErrorView::Io(failure));
    assert(crate::git::has_marker(existing) == crate::text::has_line(existing, "/.rift"@));
    if crate::text::has_line(existing, "/.rift"@) {
        assert forall|talk: Talk| #[trigger] has_answers(talk, begun + s1) implies conceal(talk)
            == spoken(talk, begun + s1).ready(Ok(())) by {
            lemma_one(spoken(talk, begun), read, text);
        }
    } else {
        assert forall|talk: Talk| #[trigger] has_answers(talk, begun + s2) implies conceal(talk)
            == spoken(talk, begun + s2).ready(Ok(())) by {
            let t = spoken(talk, begun);
            lemma_begin(t, read, text, seq![(write, ReplyView::Done)]);
            lemma_one(t.after(read), write, ReplyView::Done);
        }
    }
    if failure.kind == FailureKind::NotFound {
        assert forall|talk: Talk| #[trigger] has_answers(talk, begun + s3) implies conceal(talk)
            == spoken(talk, begun + s3).ready(Ok(())) by {
            let t = spoken(talk, begun);
            lemma_begin(t, read, failed, seq![(write_new, ReplyView::Done)]);
            lemma_one(t.after(read), write_new, ReplyView::Done);
        }
    } else {
        assert forall|talk: Talk| #[trigger] has_answers(talk, begun + s4) implies conceal(talk)
            == spoken(talk, begun + s4).ready(io) by {
            lemma_one(spoken(talk, begun), read, failed);
        }
    }
}

/// The request by which Git is asked for the commit of `HEAD`.
pub open spec fn commit_request(path: Seq<u8>) -> RequestView {
    RequestView::Git(
        PlaceView::WorkTree(path),
        seq!["rev-parse"@, "--verify"@, "HEAD^{commit}"@],
    )
}

/// A copy is taken off its branch by writing all of its commit, as a line, into `HEAD` of the
/// directory of its own that Git names. The commit is the one that was found directly, and else
/// what Git prints. Without a commit nothing is written, and without `.git` neither.
pub proof fn head_becomes_the_whole_commit(
    path: Seq<u8>,
    commit: Seq<char>,
    output: OutputView,
    own: OutputView,
    common: OutputView,
    git_dir: Seq<u8>,
    common_dir: Seq<u8>,
    failure: FailureView,
    no: ReplyView,
)
    requires
        names(own, git_dir),
        names(common, common_dir),
        no != ReplyView::Flag(true),
    ensures
        ({
            let detach = |talk: Talk| crate::git::detach_destination_run(path, talk);
            let head = crate::path::child(git_dir, "HEAD"@);
            let ask = RequestView::HeadCommit(path);
            let direct = seq![(ask, ReplyView::Commit(Some(commit)))];
            let by_git = seq![
                (ask, ReplyView::Commit(None)),
                (commit_request(path), ReplyView::Printed(output)),
            ];
            let found = lookup(path, own, common);
            let absent = seq![(RequestView::Exists(crate::path::child(path, ".git"@)), no)];
            let whole = seq![(RequestView::WriteText(head, commit + "\n"@), ReplyView::Done)];
            let printed = seq![
                (RequestView::WriteText(head, text_of(output.stdout) + "\n"@), ReplyView::Done),
            ];
            &&& tells(detach, direct + (found + whole), Ok(()))
            &&& tells(detach, direct + absent, Ok(()))
            &&& output.success ==> tells(detach, by_git + (found + printed), Ok(()))
            &&& output.success ==> tells(detach, by_git + absent, Ok(()))
            &&& !output.success ==> tells(detach, by_git, Ok(()))
            &&& tells(
                detach,
                seq![
                    (ask, ReplyView::Commit(None)),
                    (commit_request(path), ReplyView::Failed(failure)),
                ],
                Err(ErrorView::Io(failure)),
            )
        }),
{
    let detach = |talk: Talk| crate::git::detach_destination_run(path, talk);
    let head = crate::path::child(git_dir, "HEAD"@);
    let ask = RequestView::HeadCommit(path);
    let git = commit_request(path);
    let none = ReplyView::Commit(None);
    let some = ReplyView::Commit(Some(commit));
    let output_reply = ReplyView::Printed(output);
    let found = lookup(path, own, common);
    let absent = seq![(RequestView::Exists(crate::path::child(path, ".git"@)), no)];
    directories_are_those_that_git_names(path, own, common, git_dir, common_dir, no);
    assert forall|text: Seq<char>, talk: Talk|
        #![trigger crate::git::detach_at_run(path, text, talk)]
        ({
            let write = seq![(RequestView::WriteText(head, text + "\n"@), ReplyView::Done)];
            &&& has_answers(talk, found + write) ==> crate::git::detach_at_run(path, text, talk)
                == spoken(talk, found + write).ready(Ok(()))
            &&& has_answers(talk, absent) ==> crate::git::detach_at_run(path, text, talk)
                == spoken(talk, absent).ready(Ok(()))
        }) by {
        let request = RequestView::WriteText(head, text + "\n"@);
        let write = seq![(request, ReplyView::Done)];
        if has_answers(talk, found + write) {
            lemma_split(talk, found, write);
            lemma_one(spoken(talk, found), request, ReplyView::Done);
        }
    }
    let whole = seq![(RequestView::WriteText(head, commit + "\n"@), ReplyView::Done)];
    let direct = seq![(ask, some)];
    let by_git = seq![(ask, none), (git, output_reply)];
    let stdout = text_of(output.stdout);
    let printed = seq![(RequestView::WriteText(head, stdout + "\n"@), ReplyView::Done)];
    assert forall|talk: Talk| #[trigger]
        has_answers(talk, direct + (found + whole)) implies detach(talk) == spoken(
        talk,
        direct + (found + whole),
    ).ready(Ok(())) by {
        lemma_begin(talk, ask, some, found + whole);
        assert(detach(talk) == crate::git::detach_at_run(path, commit, talk.after(ask)));
    }
    assert forall|talk: Talk| #[trigger] has_answers(talk, direct + absent) implies detach(talk)
        == spoken(talk, direct + absent).ready(Ok(())) by {
        lemma_begin(talk, ask, some, absent);
        assert(detach(talk) == crate::git::detach_at_run(path, commit, talk.after(ask)));
    }
    if output.success {
        let long = found + printed;
        assert(by_git + long =~= seq![(ask, none)] + (seq![(git, output_reply)] + long));
        assert(by_git + absent =~= seq![(ask, none)] + (seq![(git, output_reply)] + absent));
        assert forall|talk: Talk| #[trigger] has_answers(talk, by_git + long) implies detach(talk)
            == spoken(talk, by_git + long).ready(Ok(())) by {
            lemma_begin(talk, ask, none, seq![(git, output_reply)] + long);
            lemma_begin(talk.after(ask), git, output_reply, long);
            assert(detach(talk) == crate::git::detach_at_run(
                path,
                stdout,
                talk.after(ask).after(git),
            ));
        }
        assert forall|talk: Talk| #[trigger]
            has_answers(talk, by_git + absent) implies detach(talk) == spoken(
            talk,
            by_git + absent,
        ).ready(Ok(())) by {
            lemma_begin(talk, ask, none, seq![(git, output_reply)] + absent);
            lemma_begin(talk.after(ask), git, output_reply, absent);
            assert(detach(talk) == crate::git::detach_at_run(
                path,
                stdout,
                talk.after(ask).after(git),
            ));
        }
    } else {
        assert(by_git =~= seq![(ask, none)] + seq![(git, output_reply)]);
        assert forall|talk: Talk| #[trigger] has_answers(talk, by_git) implies detach(talk)
            == spoken(talk, by_git).ready(Ok(())) by {
            lemma_begin(talk, ask, none, seq![(git, output_reply)]);
            lemma_one(talk.after(ask), git, output_reply);
        }
    }
    let failed = ReplyView::Failed(failure);
    let unable = seq![(ask, none), (git, failed)];
    let io: Result<(), ErrorView> = Err(ErrorView::Io(failure));
    assert(unable =~= seq![(ask, none)] + seq![(git, failed)]);
    assert forall|talk: Talk| #[trigger] has_answers(talk, unable) implies detach(talk) == spoken(
        talk,
        unable,
    ).ready(io) by {
        lemma_begin(talk, ask, none, seq![(git, failed)]);
        lemma_one(talk.after(ask), git, failed);
    }
}

} // verus!
