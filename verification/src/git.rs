//! What kind of source a workspace is copied from, and the small changes made to its Git metadata.

use crate::dialogue::{OutputView, Place, PlaceView, Request, RequestView, Run, Session, Talk};
use crate::error::{Error, ErrorView, FailureKind};
use crate::foreign::text_lossy;
use crate::path::FsPath;
use crate::text::{concat, contains_line, trim};
use vstd::prelude::*;
use vstd::string::*;
use vstd::utf8::*;

verus! {

/// What a workspace is copied from.
#[derive(Clone, Copy, Debug, PartialEq, Eq, Structural)]
pub enum Source {
    PlainDirectory,
    Repository,
}

impl DeepView for Source {
    type V = Source;

    open spec fn deep_view(&self) -> Source {
        *self
    }
}

impl Source {
    pub fn is_repository(self) -> (is: bool)
        ensures
            is == (self == Source::Repository),
    {
        matches!(self, Source::Repository)
    }
}

/// The directories of a repository: the one of this working tree, and the one it shares with the
/// other working trees.
#[derive(Debug, PartialEq, Eq)]
pub struct GitDirs {
    pub git_dir: FsPath,
    pub common_dir: FsPath,
}

pub struct GitDirsView {
    pub git_dir: Seq<u8>,
    pub common_dir: Seq<u8>,
}

impl DeepView for GitDirs {
    type V = GitDirsView;

    open spec fn deep_view(&self) -> GitDirsView {
        GitDirsView { git_dir: self.git_dir@, common_dir: self.common_dir@ }
    }
}

impl Clone for GitDirs {
    fn clone(&self) -> (copy: GitDirs)
        ensures
            copy.deep_view() == self.deep_view(),
    {
        GitDirs { git_dir: self.git_dir.clone(), common_dir: self.common_dir.clone() }
    }
}

/// What a command printed, without the white space around it.
pub open spec fn printed(bytes: Seq<u8>) -> Seq<char> {
    crate::text::trimmed(crate::foreign::lossy_text(bytes))
}

pub fn printed_text(bytes: &Vec<u8>) -> (text: String)
    ensures
        text@ == printed(bytes@),
{
    trim(text_lossy(bytes).as_str())
}

/// The error for a Git command that did not end well.
pub open spec fn command_error(complaint: Seq<char>, stderr: Seq<u8>) -> ErrorView {
    ErrorView::UnsafeGit(complaint + ": "@ + printed(stderr))
}

/// A Git command that has to end well. Its value is what the command printed.
pub open spec fn command_run(
    place: PlaceView,
    args: Seq<Seq<char>>,
    complaint: Seq<char>,
    talk: Talk,
) -> Run<Seq<u8>> {
    talk.ask_output(RequestView::Git(place, args)).and_then(
        |output: OutputView, t: Talk|
            if output.success {
                t.ready(Ok(output.stdout))
            } else {
                t.ready(Err(command_error(complaint, output.stderr)))
            },
    )
}

pub(crate) fn command(
    place: Place,
    args: Vec<String>,
    complaint: &str,
    session: &mut Session,
) -> (result: Option<Result<Vec<u8>, Error>>)
    ensures
        final(session)@ == command_run(place@, args.deep_view(), complaint@, old(session)@).talk,
        command_run(place@, args.deep_view(), complaint@, old(session)@).out == (match result {
            None => None,
            Some(Ok(stdout)) => Some(Ok::<Seq<u8>, ErrorView>(stdout@)),
            Some(Err(error)) => Some(Err::<Seq<u8>, ErrorView>(error@)),
        }),
{
    let output = match session.ask_output(Request::Git(place, args))? {
        Ok(output) => output,
        Err(error) => return Some(Err(error)),
    };
    if output.success {
        return Some(Ok(output.stdout));
    }
    let mut message = concat(complaint, ": ");
    message.append(printed_text(&output.stderr).as_str());
    Some(Err(Error::UnsafeGit(message)))
}

/// Asks Git for one of the paths of a repository.
pub open spec fn git_path_run(path: Seq<u8>, flag: Seq<char>, talk: Talk) -> Run<Seq<u8>> {
    command_run(
        PlaceView::WorkTree(path),
        seq!["rev-parse"@, "--path-format=absolute"@, flag],
        "failed to resolve Git path with "@ + flag,
        talk,
    ).and_then(
        |stdout: Seq<u8>, t: Talk|
            if printed(stdout).len() == 0 {
                t.ready(Err(ErrorView::UnsafeGit("Git returned an empty path for "@ + flag)))
            } else {
                t.ready(Ok(encode_utf8(printed(stdout))))
            },
    )
}

pub fn git_path(path: &FsPath, flag: &str, session: &mut Session) -> (result: Option<
    Result<FsPath, Error>,
>)
    ensures
        final(session)@.ended(result) == git_path_run(
            path@,
            flag@,
            old(session)@,
        ),
{
    let args = vec![
        "rev-parse".to_owned(),
        "--path-format=absolute".to_owned(),
        flag.to_owned(),
    ];
    assert(args.deep_view() =~= seq!["rev-parse"@, "--path-format=absolute"@, flag@]);
    let complaint = concat("failed to resolve Git path with ", flag);
    let stdout = match command(
        Place::WorkTree(path.clone()),
        args,
        complaint.as_str(),
        session,
    )? {
        Ok(stdout) => stdout,
        Err(error) => return Some(Err(error)),
    };
    let value = printed_text(&stdout);
    if value.as_str().is_empty() {
        return Some(Err(Error::UnsafeGit(concat("Git returned an empty path for ", flag))));
    }
    Some(Ok(FsPath::from_text(value.as_str())))
}

/// The directories of the repository at `path`, or nothing where there is no `.git`.
pub open spec fn resolve_dirs_run(path: Seq<u8>, talk: Talk) -> Run<Option<GitDirsView>> {
    talk.ask_flag(RequestView::Exists(crate::path::child(path, ".git"@))).and_then(
        |there: bool, t: Talk|
            if there {
                git_path_run(path, "--git-dir"@, t).and_then(
                    |git_dir: Seq<u8>, t: Talk|
                        git_path_run(path, "--git-common-dir"@, t).and_then(
                            |common_dir: Seq<u8>, t: Talk|
                                t.ready(Ok(Some(GitDirsView { git_dir, common_dir }))),
                        ),
                )
            } else {
                t.ready(Ok(None))
            },
    )
}

pub fn resolve_dirs(path: &FsPath, session: &mut Session) -> (result: Option<
    Result<Option<GitDirs>, Error>,
>)
    ensures
        final(session)@.ended(result) == resolve_dirs_run(
            path@,
            old(session)@,
        ),
{
    if !session.ask_flag(Request::Exists(path.join(".git")))? {
        return Some(Ok(None));
    }
    let git_dir = match git_path(path, "--git-dir", session)? {
        Ok(git_dir) => git_dir,
        Err(error) => return Some(Err(error)),
    };
    let common_dir = match git_path(path, "--git-common-dir", session)? {
        Ok(common_dir) => common_dir,
        Err(error) => return Some(Err(error)),
    };
    Some(Ok(Some(GitDirs { git_dir, common_dir })))
}

/// The files and directories in a repository that show an operation in progress.
pub open spec fn busy_states() -> Seq<Seq<char>> {
    seq![
        "MERGE_HEAD"@,
        "CHERRY_PICK_HEAD"@,
        "REVERT_HEAD"@,
        "BISECT_LOG"@,
        "rebase-merge"@,
        "rebase-apply"@,
        "index.lock"@,
        "HEAD.lock"@,
    ]
}

/// Looks for the states from number `from` on and fails on the first that exists.
pub open spec fn no_state_run(git_dir: Seq<u8>, from: int, talk: Talk) -> Run<()>
    decreases busy_states().len() - from,
{
    if from >= busy_states().len() {
        talk.ready(Ok(()))
    } else {
        let state = busy_states()[from];
        let asked = talk.ask_flag(RequestView::Exists(crate::path::child(git_dir, state)));
        match asked.out {
            None => asked.talk.waiting(),
            Some(Ok(true)) => asked.talk.ready(
                Err(ErrorView::UnsafeGit("Git state in progress: "@ + state)),
            ),
            Some(_) => no_state_run(git_dir, from + 1, asked.talk),
        }
    }
}

/// Refuses a repository in which an operation is in progress.
pub open spec fn check_safe_state_run(path: Seq<u8>, talk: Talk) -> Run<()> {
    resolve_dirs_run(path, talk).and_then(
        |dirs: Option<GitDirsView>, t: Talk|
            match dirs {
                None => t.ready(Ok(())),
                Some(dirs) => no_state_run(dirs.git_dir, 0, t),
            },
    )
}

fn busy_state_names() -> (names: Vec<String>)
    ensures
        names.deep_view() == busy_states(),
{
    let names = vec![
        "MERGE_HEAD".to_owned(),
        "CHERRY_PICK_HEAD".to_owned(),
        "REVERT_HEAD".to_owned(),
        "BISECT_LOG".to_owned(),
        "rebase-merge".to_owned(),
        "rebase-apply".to_owned(),
        "index.lock".to_owned(),
        "HEAD.lock".to_owned(),
    ];
    assert(names.deep_view() =~= busy_states());
    names
}

pub fn check_safe_state(path: &FsPath, session: &mut Session) -> (result: Option<
    Result<(), Error>,
>)
    ensures
        final(session)@.ended(result) == check_safe_state_run(path@, old(session)@),
{
    let dirs = match resolve_dirs(path, session)? {
        Ok(Some(dirs)) => dirs,
        Ok(None) => return Some(Ok(())),
        Err(error) => return Some(Err(error)),
    };
    let states = busy_state_names();
    let mut k: usize = 0;
    while k < states.len()
        invariant
            k <= states@.len(),
            states.deep_view() == busy_states(),
            check_safe_state_run(path@, old(session)@) == no_state_run(
                dirs.git_dir@,
                k as int,
                session@,
            ),
        decreases states@.len() - k,
    {
        assert(busy_states()[k as int] == states@[k as int]@);
        if session.ask_flag(Request::Exists(dirs.git_dir.join(states[k].as_str())))? {
            return Some(
                Err(Error::UnsafeGit(concat("Git state in progress: ", states[k].as_str()))),
            );
        }
        k += 1;
    }
    Some(Ok(()))
}

/// What the source at `path` is. Linked working trees and repositories in the middle of an
/// operation are refused.
pub open spec fn check_source_run(path: Seq<u8>, talk: Talk) -> Run<Source> {
    let git = crate::path::child(path, ".git"@);
    talk.ask_flag(RequestView::Exists(git)).and_then(
        |there: bool, t: Talk|
            if !there {
                t.ready(Ok(Source::PlainDirectory))
            } else {
                t.ask_flag(RequestView::IsDir(git)).and_then(
                    |directory: bool, t: Talk|
                        if !directory {
                            t.ready(
                                Err(
                                    ErrorView::UnsafeGit(
                                        "linked Git worktree sources are not supported"@,
                                    ),
                                ),
                            )
                        } else {
                            check_safe_state_run(path, t).and_then(
                                |safe: (), t: Talk| t.ready(Ok(Source::Repository)),
                            )
                        },
                )
            },
    )
}

pub fn check_source(path: &FsPath, session: &mut Session) -> (result: Option<
    Result<Source, Error>,
>)
    ensures
        final(session)@.ended(result) == check_source_run(path@, old(session)@),
{
    let git = path.join(".git");
    if !session.ask_flag(Request::Exists(git.clone()))? {
        return Some(Ok(Source::PlainDirectory));
    }
    if !session.ask_flag(Request::IsDir(git))? {
        return Some(
            Err(Error::UnsafeGit("linked Git worktree sources are not supported".to_owned())),
        );
    }
    match check_safe_state(path, session)? {
        Ok(()) => Some(Ok(Source::Repository)),
        Err(error) => Some(Err(error)),
    }
}

/// What the source at `path` is, where linked working trees are allowed.
pub open spec fn check_source_allow_worktree_run(path: Seq<u8>, talk: Talk) -> Run<Source> {
    talk.ask_flag(RequestView::Exists(crate::path::child(path, ".git"@))).and_then(
        |there: bool, t: Talk|
            if !there {
                t.ready(Ok(Source::PlainDirectory))
            } else {
                resolve_dirs_run(path, t).and_then(
                    |dirs: Option<GitDirsView>, t: Talk|
                        if dirs is None {
                            t.ready(Err(ErrorView::UnsafeGit("invalid Git repository"@)))
                        } else {
                            check_safe_state_run(path, t).and_then(
                                |safe: (), t: Talk| t.ready(Ok(Source::Repository)),
                            )
                        },
                )
            },
    )
}

pub fn check_source_allow_worktree(path: &FsPath, session: &mut Session) -> (result: Option<
    Result<Source, Error>,
>)
    ensures
        final(session)@.ended(result) == check_source_allow_worktree_run(path@, old(session)@),
{
    if !session.ask_flag(Request::Exists(path.join(".git")))? {
        return Some(Ok(Source::PlainDirectory));
    }
    match resolve_dirs(path, session)? {
        Ok(Some(_)) => {},
        Ok(None) => return Some(Err(Error::UnsafeGit("invalid Git repository".to_owned()))),
        Err(error) => return Some(Err(error)),
    }
    match check_safe_state(path, session)? {
        Ok(()) => Some(Ok(Source::Repository)),
        Err(error) => Some(Err(error)),
    }
}

/// The line that hides the marker file of a workspace from Git.
pub open spec fn marker_line() -> Seq<char> {
    "/.rift"@
}

/// The contents of an exclude file with the marker line added as a line of its own.
pub open spec fn with_marker(existing: Seq<char>) -> Seq<char> {
    let separator = if existing.len() == 0 || existing.last() == '\n' { ""@ } else { "\n"@ };
    existing + separator + "/.rift\n"@
}

/// What an exclude file has to be replaced by to hide the marker, or nothing where it hides the
/// marker already.
pub fn hidden_contents(existing: &str) -> (contents: Option<String>)
    ensures
        contents is None <==> has_marker(existing@),
        contents matches Some(c) ==> c@ == with_marker(existing@),
{
    if contains_line(existing, "/.rift") {
        return None;
    }
    let len = existing.unicode_len();
    let separator = if len > 0 && existing.get_char(len - 1) != '\n' { "\n" } else { "" };
    let mut contents = concat(existing, separator);
    contents.append("/.rift\n");
    Some(contents)
}

/// Whether an exclude file hides the marker.
pub open spec fn has_marker(contents: Seq<char>) -> bool {
    crate::text::has_line(contents, marker_line())
}

/// Reads a file that may be missing; then it counts as empty.
pub open spec fn read_or_empty_run(path: Seq<u8>, talk: Talk) -> Run<Seq<char>> {
    let read = talk.ask_text(RequestView::ReadText(path));
    match read.out {
        Some(Err(ErrorView::Io(failure))) if failure.kind == FailureKind::NotFound =>
            read.talk.ready(Ok(Seq::empty())),
        _ => read,
    }
}

/// Hides the marker in the exclude file of a repository.
pub open spec fn add_marker_run(common_dir: Seq<u8>, talk: Talk) -> Run<()> {
    let info = crate::path::child(common_dir, "info"@);
    let exclude = crate::path::child(info, "exclude"@);
    talk.perform(RequestView::CreateDirs(info)).and_then(
        |made: (), t: Talk|
            read_or_empty_run(exclude, t).and_then(
                |existing: Seq<char>, t: Talk|
                    if has_marker(existing) {
                        t.ready(Ok(()))
                    } else {
                        t.perform(RequestView::WriteText(exclude, with_marker(existing)))
                    },
            ),
    )
}

fn add_marker(common_dir: &FsPath, session: &mut Session) -> (result: Option<Result<(), Error>>)
    ensures
        final(session)@.ended(result) == add_marker_run(common_dir@, old(session)@),
{
    let info = common_dir.join("info");
    let exclude = info.join("exclude");
    if let Err(error) = session.perform(Request::CreateDirs(info))? {
        return Some(Err(error));
    }
    let existing = match session.ask_text(Request::ReadText(exclude.clone()))? {
        Ok(contents) => contents,
        Err(Error::Io(failure)) => {
            if failure.kind == FailureKind::NotFound {
                String::new()
            } else {
                return Some(Err(Error::Io(failure)));
            }
        },
        Err(error) => return Some(Err(error)),
    };
    match hidden_contents(existing.as_str()) {
        None => Some(Ok(())),
        Some(contents) => session.perform(Request::WriteText(exclude, contents)),
    }
}

/// Hides the marker from Git in the repository at `path`, if there is one.
pub open spec fn hide_marker_run(path: Seq<u8>, talk: Talk) -> Run<()> {
    resolve_dirs_run(path, talk).and_then(
        |dirs: Option<GitDirsView>, t: Talk|
            match dirs {
                None => t.ready(Ok(())),
                Some(dirs) => add_marker_run(dirs.common_dir, t),
            },
    )
}

pub fn hide_marker(path: &FsPath, session: &mut Session) -> (result: Option<Result<(), Error>>)
    ensures
        final(session)@.ended(result) == hide_marker_run(path@, old(session)@),
{
    match resolve_dirs(path, session)? {
        Ok(Some(dirs)) => add_marker(&dirs.common_dir, session),
        Ok(None) => Some(Ok(())),
        Err(error) => Some(Err(error)),
    }
}

/// Writes a commit into `HEAD` of the repository at `path`, if there is one.
pub open spec fn detach_at_run(path: Seq<u8>, commit: Seq<char>, talk: Talk) -> Run<()> {
    resolve_dirs_run(path, talk).and_then(
        |dirs: Option<GitDirsView>, t: Talk|
            match dirs {
                None => t.ready(Ok(())),
                Some(dirs) => t.perform(
                    RequestView::WriteText(
                        crate::path::child(dirs.git_dir, "HEAD"@),
                        commit + "\n"@,
                    ),
                ),
            },
    )
}

fn detach_at(path: &FsPath, commit: &str, session: &mut Session) -> (result: Option<
    Result<(), Error>,
>)
    ensures
        final(session)@.ended(result) == detach_at_run(path@, commit@, old(session)@),
{
    match resolve_dirs(path, session)? {
        Ok(None) => Some(Ok(())),
        Ok(Some(dirs)) => session.perform(
            Request::WriteText(dirs.git_dir.join("HEAD"), concat(commit, "\n")),
        ),
        Err(error) => Some(Err(error)),
    }
}

/// The arguments that ask Git for the commit of `HEAD`.
pub open spec fn head_commit_args() -> Seq<Seq<char>> {
    seq!["rev-parse"@, "--verify"@, "HEAD^{commit}"@]
}

pub(crate) fn head_commit_words() -> (args: Vec<String>)
    ensures
        args.deep_view() == head_commit_args(),
{
    let args = vec!["rev-parse".to_owned(), "--verify".to_owned(), "HEAD^{commit}".to_owned()];
    assert(args.deep_view() =~= head_commit_args());
    args
}

/// The commit of `HEAD` as far as it can be found without running Git.
pub fn resolve_head_commit(path: &FsPath, session: &mut Session) -> (result: Option<
    Option<String>,
>)
    ensures
        final(session)@ == old(session)@.ask_commit(RequestView::HeadCommit(path@)).talk,
        result is Some <==> old(session)@.ask_commit(RequestView::HeadCommit(path@)).out is Some,
        result matches Some(commit) ==> old(session)@.ask_commit(
            RequestView::HeadCommit(path@),
        ).out == Some(Ok::<Option<Seq<char>>, ErrorView>(commit.deep_view())),
{
    session.ask_commit(Request::HeadCommit(path.clone()))
}

/// Takes the copy at `path` off its branch: `HEAD` becomes the commit that it leads to. The
/// commit is looked up directly where that is possible, and by Git where it is not. A repository
/// without a commit is left alone.
pub open spec fn detach_destination_run(path: Seq<u8>, talk: Talk) -> Run<()> {
    talk.ask_commit(RequestView::HeadCommit(path)).and_then(
        |found: Option<Seq<char>>, t: Talk|
            match found {
                Some(commit) => detach_at_run(path, commit, t),
                None => t.ask_output(
                    RequestView::Git(PlaceView::WorkTree(path), head_commit_args()),
                ).and_then(
                    |output: OutputView, t: Talk|
                        if output.success {
                            detach_at_run(path, printed(output.stdout), t)
                        } else {
                            t.ready(Ok(()))
                        },
                ),
            },
    )
}

pub fn detach_destination(path: &FsPath, session: &mut Session) -> (result: Option<
    Result<(), Error>,
>)
    ensures
        final(session)@.ended(result) == detach_destination_run(path@, old(session)@),
{
    if let Some(commit) = resolve_head_commit(path, session)? {
        return detach_at(path, commit.as_str(), session);
    }
    let output = match session.ask_output(
        Request::Git(Place::WorkTree(path.clone()), head_commit_words()),
    )? {
        Ok(output) => output,
        Err(error) => return Some(Err(error)),
    };
    if !output.success {
        return Some(Ok(()));
    }
    let commit = printed_text(&output.stdout);
    detach_at(path, commit.as_str(), session)
}

} // verus!
