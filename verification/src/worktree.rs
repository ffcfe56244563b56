//! Git metadata that many workspaces share: the root keeps the repository in a store outside its
//! working tree, and every copy is registered there as a linked worktree.

use crate::dialogue::{
    EntryKind, OutputView, Place, PlaceView, Request, RequestView, Run, Session, Talk,
};
use crate::error::{Error, ErrorView, FailureKind};
use crate::git::{command, head_commit_words, printed_text, resolve_dirs, GitDirsView};
use crate::id::RiftId;
use crate::path::FsPath;
use crate::text::{concat, starts_with};
use vstd::prelude::*;
use vstd::string::*;
use vstd::utf8::*;

verus! {

/// The store of a root.
#[derive(Debug)]
pub struct SharedGitRoot {
    pub git_dir: FsPath,
}

impl DeepView for SharedGitRoot {
    type V = Seq<u8>;

    open spec fn deep_view(&self) -> Seq<u8> {
        self.git_dir@
    }
}

/// The metadata of a linked worktree.
#[derive(Debug)]
pub struct RegisteredWorktree {
    pub git_dir: FsPath,
}

impl DeepView for RegisteredWorktree {
    type V = Seq<u8>;

    open spec fn deep_view(&self) -> Seq<u8> {
        self.git_dir@
    }
}

/// How a path is shown.
pub open spec fn shown(path: Seq<u8>) -> Seq<char> {
    crate::foreign::lossy_text(path)
}

/// Where the store of a root lies: in a directory named after the root.
pub open spec fn shared_git_dir_of(repo_storage: Seq<u8>, root_id: Seq<char>) -> Seq<u8> {
    crate::path::child(crate::path::child(repo_storage, root_id), "git"@)
}

pub fn shared_git_dir_for(repo_storage: &FsPath, root_id: &RiftId) -> (path: FsPath)
    ensures
        path@ == shared_git_dir_of(repo_storage@, root_id@),
{
    repo_storage.join(root_id.as_str()).join("git")
}

/// One step of a plan.
pub enum Step {
    /// A request that has to be done.
    Act(Request),
    /// A Git command that has to end well, with the complaint for when it does not.
    Command(Place, Vec<String>, String),
}

pub enum StepView {
    Act(RequestView),
    Command(PlaceView, Seq<Seq<char>>, Seq<char>),
}

impl View for Step {
    type V = StepView;

    open spec fn view(&self) -> StepView {
        match self {
            Step::Act(request) => StepView::Act(request@),
            Step::Command(place, args, complaint) => StepView::Command(
                place@,
                args.deep_view(),
                complaint@,
            ),
        }
    }
}

impl DeepView for Step {
    type V = StepView;

    open spec fn deep_view(&self) -> StepView {
        self@
    }
}

pub open spec fn step_run(step: StepView, talk: Talk) -> Run<()> {
    match step {
        StepView::Act(request) => talk.perform(request),
        StepView::Command(place, args, complaint) => crate::git::command_run(
            place,
            args,
            complaint,
            talk,
        ).and_then(|stdout: Seq<u8>, t: Talk| t.ready(Ok(()))),
    }
}

/// The steps of a plan, one after the other, up to the first that fails.
pub open spec fn steps_run(steps: Seq<StepView>, talk: Talk) -> Run<()>
    decreases steps.len(),
{
    if steps.len() == 0 {
        talk.ready(Ok(()))
    } else {
        let first = step_run(steps[0], talk);
        match first.out {
            Some(Ok(_)) => steps_run(steps.drop_first(), first.talk),
            _ => first,
        }
    }
}

fn follow_step(step: Step, session: &mut Session) -> (result: Option<Result<(), Error>>)
    ensures
        final(session)@.ended(result) == step_run(step@, old(session)@),
{
    match step {
        Step::Act(request) => session.perform(request),
        Step::Command(place, args, complaint) => match command(
            place,
            args,
            complaint.as_str(),
            session,
        )? {
            Ok(_) => Some(Ok(())),
            Err(error) => Some(Err(error)),
        },
    }
}

/// Follows a plan up to the first step that fails.
pub fn follow(plan: Vec<Step>, session: &mut Session) -> (result: Option<Result<(), Error>>)
    ensures
        final(session)@.ended(result) == steps_run(plan.deep_view(), old(session)@),
{
    let mut left = plan;
    while left.len() > 0
        invariant
            steps_run(plan.deep_view(), old(session)@) == steps_run(left.deep_view(), session@),
        decreases left@.len(),
    {
        let ghost before = left.deep_view();
        let step = left.remove(0);
        assert(left.deep_view() =~= before.drop_first());
        assert(before[0] == step@);
        if let Err(error) = follow_step(step, session)? {
            return Some(Err(error));
        }
    }
    Some(Ok(()))
}

/// The file that points a working tree to its repository.
pub open spec fn pointer_to(git_dir: Seq<u8>) -> Seq<char> {
    "gitdir: "@ + shown(git_dir) + "\n"@
}

pub open spec fn pointer_step(path: Seq<u8>, git_dir: Seq<u8>) -> StepView {
    StepView::Act(RequestView::WriteText(path, pointer_to(git_dir)))
}

fn pointer_request(path: &FsPath, git_dir: &FsPath) -> (request: Request)
    ensures
        StepView::Act(request@) == pointer_step(path@, git_dir@),
{
    let mut text = concat("gitdir: ", git_dir.display().as_str());
    text.append("\n");
    Request::WriteText(path.clone(), text)
}

pub fn write_git_pointer(path: &FsPath, git_dir: &FsPath, session: &mut Session) -> (result: Option<
    Result<(), Error>,
>)
    ensures
        final(session)@.ended(result) == step_run(pointer_step(path@, git_dir@), old(session)@),
{
    session.perform(pointer_request(path, git_dir))
}

/// A Git command on a repository.
pub open spec fn repository_step(git_dir: Seq<u8>, args: Seq<Seq<char>>) -> StepView {
    StepView::Command(PlaceView::GitDir(git_dir), args, "Git command failed"@)
}

fn repository_command(git_dir: &FsPath, args: Vec<String>) -> (step: Step)
    ensures
        step@ == repository_step(git_dir@, args.deep_view()),
{
    Step::Command(Place::GitDir(git_dir.clone()), args, "Git command failed".to_owned())
}

pub fn run_git(git_dir: &FsPath, args: Vec<String>, session: &mut Session) -> (result: Option<
    Result<(), Error>,
>)
    ensures
        final(session)@.ended(result) == step_run(
            repository_step(git_dir@, args.deep_view()),
            old(session)@,
        ),
{
    follow_step(repository_command(git_dir, args), session)
}

/// A Git command in a working tree.
pub open spec fn worktree_step(worktree: Seq<u8>, args: Seq<Seq<char>>) -> StepView {
    StepView::Command(PlaceView::WorkTree(worktree), args, "Git command failed"@)
}

pub fn run_worktree(worktree: &FsPath, args: Vec<String>, session: &mut Session) -> (result: Option<
    Result<(), Error>,
>)
    ensures
        final(session)@.ended(result) == step_run(
            worktree_step(worktree@, args.deep_view()),
            old(session)@,
        ),
{
    follow_step(
        Step::Command(
            Place::WorkTree(worktree.clone()),
            args,
            "Git command failed".to_owned(),
        ),
        session,
    )
}

pub open spec fn validate_step(path: Seq<u8>) -> StepView {
    StepView::Command(
        PlaceView::WorkTree(path),
        seq!["status"@, "--porcelain"@],
        "Git worktree validation failed"@,
    )
}

fn validate_command(path: &FsPath) -> (step: Step)
    ensures
        step@ == validate_step(path@),
{
    let args = vec!["status".to_owned(), "--porcelain".to_owned()];
    assert(args.deep_view() =~= seq!["status"@, "--porcelain"@]);
    Step::Command(
        Place::WorkTree(path.clone()),
        args,
        "Git worktree validation failed".to_owned(),
    )
}

/// Makes sure that Git can work in a working tree.
pub fn validate_worktree(path: &FsPath, session: &mut Session) -> (result: Option<
    Result<(), Error>,
>)
    ensures
        final(session)@.ended(result) == step_run(validate_step(path@), old(session)@),
{
    follow_step(validate_command(path), session)
}

pub open spec fn worktree_list_args() -> Seq<Seq<char>> {
    seq!["worktree"@, "list"@, "--porcelain"@]
}

/// Makes sure that Git can list the worktrees of a repository.
pub fn validate_worktree_list(root_git_dir: &FsPath, session: &mut Session) -> (result: Option<
    Result<(), Error>,
>)
    ensures
        final(session)@.ended(result) == step_run(
            repository_step(root_git_dir@, worktree_list_args()),
            old(session)@,
        ),
{
    let args = vec!["worktree".to_owned(), "list".to_owned(), "--porcelain".to_owned()];
    assert(args.deep_view() =~= worktree_list_args());
    run_git(root_git_dir, args, session)
}

pub open spec fn not_bare_step(git_dir: Seq<u8>) -> StepView {
    repository_step(git_dir, seq!["config"@, "core.bare"@, "false"@])
}

fn not_bare_command(git_dir: &FsPath) -> (step: Step)
    ensures
        step@ == not_bare_step(git_dir@),
{
    let args = vec!["config".to_owned(), "core.bare".to_owned(), "false".to_owned()];
    assert(args.deep_view() =~= seq!["config"@, "core.bare"@, "false"@]);
    repository_command(git_dir, args)
}

/// Tells a repository outside its working tree where that tree is.
pub open spec fn external_steps(git_dir: Seq<u8>, worktree: Seq<u8>) -> Seq<StepView> {
    seq![
        repository_step(git_dir, seq!["config"@, "core.worktree"@, shown(worktree)]),
        not_bare_step(git_dir),
    ]
}

fn external_plan(git_dir: &FsPath, worktree: &FsPath) -> (plan: Vec<Step>)
    ensures
        plan.deep_view() == external_steps(git_dir@, worktree@),
{
    let args = vec!["config".to_owned(), "core.worktree".to_owned(), worktree.display()];
    assert(args.deep_view() =~= seq!["config"@, "core.worktree"@, shown(worktree@)]);
    let plan = vec![repository_command(git_dir, args), not_bare_command(git_dir)];
    assert(plan.deep_view() =~= external_steps(git_dir@, worktree@));
    plan
}

pub fn configure_external_root(
    git_dir: &FsPath,
    worktree: &FsPath,
    session: &mut Session,
) -> (result: Option<Result<(), Error>>)
    ensures
        final(session)@.ended(result) == steps_run(
            external_steps(git_dir@, worktree@),
            old(session)@,
        ),
{
    follow(external_plan(git_dir, worktree), session)
}

/// Tells a repository that it lies inside its working tree. That the setting to be removed may
/// not be there is no failure.
pub open spec fn configure_inline_root_run(git_dir: Seq<u8>, talk: Talk) -> Run<()> {
    talk.attempt(
        RequestView::GitVisibly(
            PlaceView::GitDir(git_dir),
            seq!["config"@, "--unset"@, "core.worktree"@],
        ),
    ).and_then(|tried: (), t: Talk| step_run(not_bare_step(git_dir), t))
}

pub fn configure_inline_root(git_dir: &FsPath, session: &mut Session) -> (result: Option<
    Result<(), Error>,
>)
    ensures
        final(session)@.ended(result) == configure_inline_root_run(git_dir@, old(session)@),
{
    let args = vec!["config".to_owned(), "--unset".to_owned(), "core.worktree".to_owned()];
    assert(args.deep_view() =~= seq!["config"@, "--unset"@, "core.worktree"@]);
    session.attempt(Request::GitVisibly(Place::GitDir(git_dir.clone()), args))?;
    follow_step(not_bare_command(git_dir), session)
}

/// Whether a directory stands at the path, and not a link to one.
pub open spec fn real_directory_run(path: Seq<u8>, talk: Talk) -> Run<bool> {
    let seen = talk.ask_kind(RequestView::Inspect(path));
    match seen.out {
        None => seen.talk.waiting(),
        Some(Ok(kind)) => seen.talk.ready(Ok(kind == EntryKind::Directory)),
        Some(Err(ErrorView::Io(failure))) if failure.kind == FailureKind::NotFound =>
            seen.talk.ready(Ok(false)),
        Some(Err(error)) => seen.talk.ready(Err(error)),
    }
}

pub fn real_directory(path: &FsPath, session: &mut Session) -> (result: Option<
    Result<bool, Error>,
>)
    ensures
        final(session)@.ended(result) == real_directory_run(path@, old(session)@),
{
    match session.ask_kind(Request::Inspect(path.clone()))? {
        Ok(kind) => Some(Ok(kind == EntryKind::Directory)),
        Err(Error::Io(failure)) => {
            if failure.kind == FailureKind::NotFound {
                Some(Ok(false))
            } else {
                Some(Err(Error::Io(failure)))
            }
        },
        Err(error) => Some(Err(error)),
    }
}

/// Refuses a path that is not the root of its repository.
pub open spec fn ensure_toplevel_run(path: Seq<u8>, talk: Talk) -> Run<()> {
    crate::git::command_run(
        PlaceView::WorkTree(path),
        seq!["rev-parse"@, "--show-toplevel"@],
        "failed to resolve Git root"@,
        talk,
    ).and_then(
        |stdout: Seq<u8>, t: Talk|
            t.ask_location(RequestView::Canonicalize(path)).and_then(
                |here: Seq<u8>, t: Talk|
                    t.ask_location(
                        RequestView::Canonicalize(encode_utf8(crate::git::printed(stdout))),
                    ).and_then(
                        |top: Seq<u8>, t: Talk|
                            if crate::path::parts(here) == crate::path::parts(top) {
                                t.ready(Ok(()))
                            } else {
                                t.ready(
                                    Err(
                                        ErrorView::UnsafeGit(
                                            "rift init --worktrees must run at the repository root"@,
                                        ),
                                    ),
                                )
                            },
                    ),
            ),
    )
}

pub fn ensure_toplevel(path: &FsPath, session: &mut Session) -> (result: Option<Result<(), Error>>)
    ensures
        final(session)@.ended(result) == ensure_toplevel_run(path@, old(session)@),
{
    let args = vec!["rev-parse".to_owned(), "--show-toplevel".to_owned()];
    assert(args.deep_view() =~= seq!["rev-parse"@, "--show-toplevel"@]);
    let stdout = match command(
        Place::WorkTree(path.clone()),
        args,
        "failed to resolve Git root",
        session,
    )? {
        Ok(stdout) => stdout,
        Err(error) => return Some(Err(error)),
    };
    let named = FsPath::from_text(printed_text(&stdout).as_str());
    let here = match session.ask_location(Request::Canonicalize(path.clone()))? {
        Ok(here) => here,
        Err(error) => return Some(Err(error)),
    };
    let top = match session.ask_location(Request::Canonicalize(named))? {
        Ok(top) => top,
        Err(error) => return Some(Err(error)),
    };
    if here.same_place(&top) {
        Some(Ok(()))
    } else {
        Some(
            Err(
                Error::UnsafeGit(
                    "rift init --worktrees must run at the repository root".to_owned(),
                ),
            ),
        )
    }
}

/// Moves a directory. Across file systems it is copied next to its new place first.
pub open spec fn move_dir_run(source: Seq<u8>, destination: Seq<u8>, talk: Talk) -> Run<()> {
    let temporary = crate::path::with_extension_of(
        destination,
        encode_utf8("rift-restore-tmp"@),
    );
    let moved = talk.perform(RequestView::Rename(source, destination));
    match moved.out {
        Some(Err(ErrorView::Io(failure))) if failure.kind == FailureKind::CrossesDevices =>
            moved.talk.ask_flag(RequestView::Exists(temporary)).and_then(
            |taken: bool, t: Talk|
                if taken {
                    t.ready(Err(ErrorView::AlreadyExists(temporary)))
                } else {
                    steps_run(
                        seq![
                            StepView::Act(RequestView::CopyTree(source, temporary)),
                            StepView::Act(RequestView::Rename(temporary, destination)),
                            StepView::Act(RequestView::RemoveTree(source)),
                        ],
                        t,
                    )
                },
        ),
        _ => moved,
    }
}

pub fn move_dir(source: &FsPath, destination: &FsPath, session: &mut Session) -> (result: Option<
    Result<(), Error>,
>)
    ensures
        final(session)@.ended(result) == move_dir_run(source@, destination@, old(session)@),
{
    match session.perform(Request::Rename(source.clone(), destination.clone()))? {
        Ok(()) => return Some(Ok(())),
        Err(Error::Io(failure)) => {
            if failure.kind != FailureKind::CrossesDevices {
                return Some(Err(Error::Io(failure)));
            }
        },
        Err(error) => return Some(Err(error)),
    }
    proof {
        reveal_strlit("rift-restore-tmp");
    }
    let temporary = destination.with_extension("rift-restore-tmp");
    if session.ask_flag(Request::Exists(temporary.clone()))? {
        return Some(Err(Error::AlreadyExists(temporary)));
    }
    let plan = vec![
        Step::Act(Request::CopyTree(source.clone(), temporary.clone())),
        Step::Act(Request::Rename(temporary.clone(), destination.clone())),
        Step::Act(Request::RemoveTree(source.clone())),
    ];
    assert(plan.deep_view() =~= seq![
        StepView::Act(RequestView::CopyTree(source@, temporary@)),
        StepView::Act(RequestView::Rename(temporary@, destination@)),
        StepView::Act(RequestView::RemoveTree(source@)),
    ]);
    follow(plan, session)
}

/// Moves a repository back to a place where only a pointer to it may stand.
pub open spec fn restore_git_dir_run(source: Seq<u8>, destination: Seq<u8>, talk: Talk) -> Run<()> {
    talk.ask_flag(RequestView::Exists(destination)).and_then(
        |there: bool, t: Talk|
            if !there {
                move_dir_run(source, destination, t)
            } else {
                t.ask_kind(RequestView::Inspect(destination)).and_then(
                    |kind: EntryKind, t: Talk|
                        if kind == EntryKind::Directory {
                            t.ready(
                                Err(
                                    ErrorView::UnsafeGit(
                                        "cannot restore Git metadata over existing directory: "@
                                            + shown(destination),
                                    ),
                                ),
                            )
                        } else {
                            t.perform(RequestView::RemoveFile(destination)).and_then(
                                |removed: (), t: Talk| move_dir_run(source, destination, t),
                            )
                        },
                )
            },
    )
}

pub fn restore_git_dir(
    source: &FsPath,
    destination: &FsPath,
    session: &mut Session,
) -> (result: Option<Result<(), Error>>)
    ensures
        final(session)@.ended(result) == restore_git_dir_run(
            source@,
            destination@,
            old(session)@,
        ),
{
    if session.ask_flag(Request::Exists(destination.clone()))? {
        let kind = match session.ask_kind(Request::Inspect(destination.clone()))? {
            Ok(kind) => kind,
            Err(error) => return Some(Err(error)),
        };
        if kind == EntryKind::Directory {
            return Some(
                Err(
                    Error::UnsafeGit(
                        concat(
                            "cannot restore Git metadata over existing directory: ",
                            destination.display().as_str(),
                        ),
                    ),
                ),
            );
        }
        if let Err(error) = session.perform(Request::RemoveFile(destination.clone()))? {
            return Some(Err(error));
        }
    }
    move_dir(source, destination, session)
}

/// Brings a repository back to its inline place, from the final store or else from the staging
/// store. Says whether it is back.
pub open spec fn put_back_run(
    inline_git: Seq<u8>,
    staging_git: Seq<u8>,
    final_git: Seq<u8>,
    talk: Talk,
) -> Run<bool> {
    talk.ask_flag(RequestView::Exists(final_git)).and_then(
        |in_final: bool, t: Talk|
            if in_final {
                restore_git_dir_run(final_git, inline_git, t).succeeded()
            } else {
                t.ask_flag(RequestView::Exists(staging_git)).and_then(
                    |in_staging: bool, t: Talk|
                        if in_staging {
                            restore_git_dir_run(staging_git, inline_git, t).succeeded()
                        } else {
                            t.ready(Ok(false))
                        },
                )
            },
    )
}

fn put_back(
    inline_git: &FsPath,
    staging_git: &FsPath,
    final_git: &FsPath,
    session: &mut Session,
) -> (result: Option<bool>)
    ensures
        final(session)@ == put_back_run(
            inline_git@,
            staging_git@,
            final_git@,
            old(session)@,
        ).talk,
        put_back_run(inline_git@, staging_git@, final_git@, old(session)@).out == (match result {
            None => None,
            Some(back) => Some(Ok::<bool, ErrorView>(back)),
        }),
{
    if session.ask_flag(Request::Exists(final_git.clone()))? {
        Some(restore_git_dir(final_git, inline_git, session)?.is_ok())
    } else if session.ask_flag(Request::Exists(staging_git.clone()))? {
        Some(restore_git_dir(staging_git, inline_git, session)?.is_ok())
    } else {
        Some(false)
    }
}

/// Undoes what was done of an initialization: the repository goes back to its inline place, and
/// only once it is back are the stores removed.
pub open spec fn rollback_run(
    inline_git: Seq<u8>,
    staging_git: Seq<u8>,
    final_git: Seq<u8>,
    staging_parent: Seq<u8>,
    final_parent: Seq<u8>,
    talk: Talk,
) -> Run<()> {
    put_back_run(inline_git, staging_git, final_git, talk).and_then(
        |restored: bool, t: Talk|
            if restored {
                t.attempt(RequestView::RemoveTree(staging_parent)).and_then(
                    |tried: (), t: Talk| t.attempt(RequestView::RemoveTree(final_parent)),
                )
            } else {
                t.ready(Ok(()))
            },
    )
}

pub fn rollback_initialize_root(
    inline_git: &FsPath,
    staging_git: &FsPath,
    final_git: &FsPath,
    staging_parent: &FsPath,
    final_parent: &FsPath,
    session: &mut Session,
) -> (result: Option<()>)
    ensures
        final(session)@ == rollback_run(
            inline_git@,
            staging_git@,
            final_git@,
            staging_parent@,
            final_parent@,
            old(session)@,
        ).talk,
        rollback_run(
            inline_git@,
            staging_git@,
            final_git@,
            staging_parent@,
            final_parent@,
            old(session)@,
        ).out == (match result {
            None => None,
            Some(()) => Some(Ok::<(), ErrorView>(())),
        }),
{
    if put_back(inline_git, staging_git, final_git, session)? {
        session.attempt(Request::RemoveTree(staging_parent.clone()))?;
        session.attempt(Request::RemoveTree(final_parent.clone()))?;
    }
    Some(())
}

/// The plan by which a repository moves into its store: into a staging directory first, and from
/// there to its final place, with the pointer and the settings brought up to date each time.
pub open spec fn initialize_steps(
    path: Seq<u8>,
    repos: Seq<u8>,
    staging_parent: Seq<u8>,
    final_parent: Seq<u8>,
    final_git: Seq<u8>,
) -> Seq<StepView> {
    let inline_git = crate::path::child(path, ".git"@);
    let staging_git = crate::path::child(staging_parent, "git"@);
    seq![
        StepView::Act(RequestView::CreateDirs(repos)),
        StepView::Act(RequestView::CreateDirs(staging_parent)),
        StepView::Act(RequestView::Rename(inline_git, staging_git)),
        pointer_step(inline_git, staging_git),
    ] + external_steps(staging_git, path) + seq![
        validate_step(path),
        StepView::Act(RequestView::Rename(staging_parent, final_parent)),
        pointer_step(inline_git, final_git),
    ] + external_steps(final_git, path) + seq![validate_step(path)]
}

fn initialize_plan(
    path: &FsPath,
    repos: &FsPath,
    staging_parent: &FsPath,
    final_parent: &FsPath,
    final_git: &FsPath,
) -> (plan: Vec<Step>)
    ensures
        plan.deep_view() == initialize_steps(
            path@,
            repos@,
            staging_parent@,
            final_parent@,
            final_git@,
        ),
{
    let inline_git = path.join(".git");
    let staging_git = staging_parent.join("git");
    let mut plan = vec![
        Step::Act(Request::CreateDirs(repos.clone())),
        Step::Act(Request::CreateDirs(staging_parent.clone())),
        Step::Act(Request::Rename(inline_git.clone(), staging_git.clone())),
        Step::Act(pointer_request(&inline_git, &staging_git)),
    ];
    let mut staging_plan = external_plan(&staging_git, path);
    plan.append(&mut staging_plan);
    plan.push(validate_command(path));
    plan.push(
        Step::Act(Request::Rename(staging_parent.clone(), final_parent.clone())),
    );
    plan.push(Step::Act(pointer_request(&inline_git, final_git)));
    let mut final_plan = external_plan(final_git, path);
    plan.append(&mut final_plan);
    plan.push(validate_command(path));
    assert(plan.deep_view() =~= initialize_steps(
        path@,
        repos@,
        staging_parent@,
        final_parent@,
        final_git@,
    ));
    plan
}

/// The move of a repository into its store, undone where it fails.
pub open spec fn initialize_moves_run(
    path: Seq<u8>,
    repos: Seq<u8>,
    staging_parent: Seq<u8>,
    final_parent: Seq<u8>,
    final_git: Seq<u8>,
    talk: Talk,
) -> Run<Seq<u8>> {
    let done = steps_run(
        initialize_steps(path, repos, staging_parent, final_parent, final_git),
        talk,
    );
    match done.out {
        None => done.talk.waiting(),
        Some(Ok(_)) => done.talk.ready(Ok(final_git)),
        Some(Err(error)) => rollback_run(
            crate::path::child(path, ".git"@),
            crate::path::child(staging_parent, "git"@),
            final_git,
            staging_parent,
            final_parent,
            done.talk,
        ).and_then(|undone: (), t: Talk| t.ready(Err(error))),
    }
}

/// Moves the repository at `path` into the store.
pub open spec fn initialize_root_run(
    path: Seq<u8>,
    root_id: Seq<char>,
    repo_storage: Seq<u8>,
    talk: Talk,
) -> Run<Seq<u8>> {
    let final_git = shared_git_dir_of(repo_storage, root_id);
    real_directory_run(crate::path::child(path, ".git"@), talk).and_then(
        |inline: bool, t: Talk|
            if !inline {
                t.ready(
                    Err(
                        ErrorView::UnsafeGit(
                            "rift init --worktrees requires a repository with an inline .git directory"@,
                        ),
                    ),
                )
            } else {
                ensure_toplevel_run(path, t).and_then(
                    |top: (), t: Talk|
                        match crate::path::parent_of(final_git) {
                            None => t.ready(
                                Err(
                                    ErrorView::Path("Git dir has no parent: "@ + shown(final_git)),
                                ),
                            ),
                            Some(final_parent) => initialize_store_run(
                                path,
                                final_parent,
                                final_git,
                                t,
                            ),
                        },
                )
            },
    )
}

/// The part of the initialization that concerns the store.
pub open spec fn initialize_store_run(
    path: Seq<u8>,
    final_parent: Seq<u8>,
    final_git: Seq<u8>,
    talk: Talk,
) -> Run<Seq<u8>> {
    let staging_parent = crate::path::with_extension_of(final_parent, encode_utf8("tmp"@));
    talk.ask_flag(RequestView::Exists(final_parent)).and_then(
        |final_taken: bool, t: Talk|
            if final_taken {
                t.ready(Ok(true))
            } else {
                t.ask_flag(RequestView::Exists(staging_parent))
            },
    ).and_then(
        |taken: bool, t: Talk|
            if taken {
                t.ready(Err(ErrorView::AlreadyExists(final_parent)))
            } else {
                match crate::path::parent_of(final_parent) {
                    None => t.ready(
                        Err(
                            ErrorView::Path(
                                "repository storage has no parent: "@ + shown(final_parent),
                            ),
                        ),
                    ),
                    Some(repos) => initialize_moves_run(
                        path,
                        repos,
                        staging_parent,
                        final_parent,
                        final_git,
                        t,
                    ),
                }
            },
    )
}

pub fn initialize_root(
    path: &FsPath,
    root_id: &RiftId,
    repo_storage: &FsPath,
    session: &mut Session,
) -> (result: Option<Result<SharedGitRoot, Error>>)
    ensures
        final(session)@.ended(result) == initialize_root_run(
            path@,
            root_id@,
            repo_storage@,
            old(session)@,
        ),
{
    let inline_git = path.join(".git");
    match real_directory(&inline_git, session)? {
        Ok(true) => {},
        Ok(false) => return Some(
            Err(
                Error::UnsafeGit(
                    "rift init --worktrees requires a repository with an inline .git directory".to_owned(),
                ),
            ),
        ),
        Err(error) => return Some(Err(error)),
    }
    if let Err(error) = ensure_toplevel(path, session)? {
        return Some(Err(error));
    }
    let final_git = shared_git_dir_for(repo_storage, root_id);
    let final_parent = match final_git.parent() {
        Some(final_parent) => final_parent,
        None => return Some(
            Err(
                Error::Path(
                    concat("Git dir has no parent: ", final_git.display().as_str()),
                ),
            ),
        ),
    };
    proof {
        reveal_strlit("tmp");
    }
    let staging_parent = final_parent.with_extension("tmp");
    let staging_git = staging_parent.join("git");
    if session.ask_flag(Request::Exists(final_parent.clone()))? {
        return Some(Err(Error::AlreadyExists(final_parent)));
    }
    if session.ask_flag(Request::Exists(staging_parent.clone()))? {
        return Some(Err(Error::AlreadyExists(final_parent)));
    }
    let repos = match final_parent.parent() {
        Some(repos) => repos,
        None => return Some(
            Err(
                Error::Path(
                    concat(
                        "repository storage has no parent: ",
                        final_parent.display().as_str(),
                    ),
                ),
            ),
        ),
    };
    let plan = initialize_plan(path, &repos, &staging_parent, &final_parent, &final_git);
    match follow(plan, session)? {
        Ok(()) => Some(Ok(SharedGitRoot { git_dir: final_git })),
        Err(error) => {
            rollback_initialize_root(
                &inline_git,
                &staging_git,
                &final_git,
                &staging_parent,
                &final_parent,
                session,
            )?;
            Some(Err(error))
        },
    }
}

/// What `HEAD` of a repository says.
#[derive(Debug)]
pub enum HeadState {
    /// It leads to a commit.
    Commit(String),
    /// It names a branch without a commit; the contents of the file.
    Symbolic(String),
}

pub enum HeadStateView {
    Commit(Seq<char>),
    Symbolic(Seq<char>),
}

impl DeepView for HeadState {
    type V = HeadStateView;

    open spec fn deep_view(&self) -> HeadStateView {
        match self {
            HeadState::Commit(commit) => HeadStateView::Commit(commit@),
            HeadState::Symbolic(contents) => HeadStateView::Symbolic(contents@),
        }
    }
}

impl HeadStateView {
    /// What a file `HEAD` that says the same holds.
    pub open spec fn contents(self) -> Seq<char> {
        match self {
            HeadStateView::Commit(commit) => commit + "\n"@,
            HeadStateView::Symbolic(contents) => contents,
        }
    }
}

impl HeadState {
    pub fn contents(&self) -> (text: String)
        ensures
            text@ == self.deep_view().contents(),
    {
        match self {
            HeadState::Commit(commit) => concat(commit.as_str(), "\n"),
            HeadState::Symbolic(contents) => contents.clone(),
        }
    }
}

/// Reads what `HEAD` of the repository at `path` says.
pub open spec fn head_state_run(path: Seq<u8>, talk: Talk) -> Run<HeadStateView> {
    talk.ask_output(
        RequestView::Git(PlaceView::WorkTree(path), crate::git::head_commit_args()),
    ).and_then(
        |output: OutputView, t: Talk|
            if output.success {
                t.ready(Ok(HeadStateView::Commit(crate::git::printed(output.stdout))))
            } else {
                crate::git::resolve_dirs_run(path, t).and_then(
                    |dirs: Option<GitDirsView>, t: Talk|
                        match dirs {
                            None => t.ready(
                                Err(ErrorView::UnsafeGit("source is not a Git repository"@)),
                            ),
                            Some(dirs) => t.ask_text(
                                RequestView::ReadText(crate::path::child(dirs.git_dir, "HEAD"@)),
                            ).and_then(
                                |contents: Seq<char>, t: Talk|
                                    if "ref: "@.is_prefix_of(contents) {
                                        t.ready(Ok(HeadStateView::Symbolic(contents)))
                                    } else {
                                        t.ready(
                                            Err(
                                                ErrorView::UnsafeGit(
                                                    "cannot resolve Git HEAD for worktree registration"@,
                                                ),
                                            ),
                                        )
                                    },
                            ),
                        },
                )
            },
    )
}

pub fn head_state(path: &FsPath, session: &mut Session) -> (result: Option<
    Result<HeadState, Error>,
>)
    ensures
        final(session)@.ended(result) == head_state_run(path@, old(session)@),
{
    let output = match session.ask_output(
        Request::Git(Place::WorkTree(path.clone()), head_commit_words()),
    )? {
        Ok(output) => output,
        Err(error) => return Some(Err(error)),
    };
    if output.success {
        return Some(Ok(HeadState::Commit(printed_text(&output.stdout))));
    }
    let dirs = match resolve_dirs(path, session)? {
        Ok(Some(dirs)) => dirs,
        Ok(None) => return Some(
            Err(Error::UnsafeGit("source is not a Git repository".to_owned())),
        ),
        Err(error) => return Some(Err(error)),
    };
    let contents = match session.ask_text(Request::ReadText(dirs.git_dir.join("HEAD")))? {
        Ok(contents) => contents,
        Err(error) => return Some(Err(error)),
    };
    if starts_with(contents.as_str(), "ref: ") {
        return Some(Ok(HeadState::Symbolic(contents)));
    }
    Some(
        Err(Error::UnsafeGit("cannot resolve Git HEAD for worktree registration".to_owned())),
    )
}

/// Refuses a repository without a commit.
pub open spec fn ensure_head_commit_run(path: Seq<u8>, talk: Talk) -> Run<()> {
    head_state_run(path, talk).and_then(
        |head: HeadStateView, t: Talk|
            match head {
                HeadStateView::Commit(_) => t.ready(Ok(())),
                HeadStateView::Symbolic(_) => t.ready(
                    Err(
                        ErrorView::UnsafeGit(
                            "rift init --worktrees requires a repository with at least one commit"@,
                        ),
                    ),
                ),
            },
    )
}

pub fn ensure_head_commit(path: &FsPath, session: &mut Session) -> (result: Option<
    Result<(), Error>,
>)
    ensures
        final(session)@.ended(result) == ensure_head_commit_run(path@, old(session)@),
{
    match head_state(path, session)? {
        Ok(HeadState::Commit(_)) => Some(Ok(())),
        Ok(HeadState::Symbolic(_)) => Some(
            Err(
                Error::UnsafeGit(
                    "rift init --worktrees requires a repository with at least one commit".to_owned(),
                ),
            ),
        ),
        Err(error) => Some(Err(error)),
    }
}

/// Removes the Git metadata that came with a copied working tree.
pub open spec fn remove_copied_run(destination: Seq<u8>, talk: Talk) -> Run<()> {
    let git = crate::path::child(destination, ".git"@);
    talk.ask_kind(RequestView::Inspect(git)).and_then(
        |kind: EntryKind, t: Talk|
            if kind == EntryKind::Directory {
                t.perform(RequestView::RemoveTree(git))
            } else {
                t.perform(RequestView::RemoveFile(git))
            },
    )
}

pub fn remove_copied_git_entry(destination: &FsPath, session: &mut Session) -> (result: Option<
    Result<(), Error>,
>)
    ensures
        final(session)@.ended(result) == remove_copied_run(destination@, old(session)@),
{
    let git = destination.join(".git");
    match session.ask_kind(Request::Inspect(git.clone()))? {
        Ok(EntryKind::Directory) => session.perform(Request::RemoveTree(git)),
        Ok(_) => session.perform(Request::RemoveFile(git)),
        Err(error) => Some(Err(error)),
    }
}

/// Removes the metadata of a linked worktree, if there is any.
pub open spec fn remove_registered_run(git_dir: Seq<u8>, talk: Talk) -> Run<()> {
    let seen = talk.ask_kind(RequestView::Inspect(git_dir));
    match seen.out {
        None => seen.talk.waiting(),
        Some(Ok(EntryKind::Directory)) => seen.talk.perform(RequestView::RemoveTree(git_dir)),
        Some(Ok(_)) => seen.talk.perform(RequestView::RemoveFile(git_dir)),
        Some(Err(_)) => seen.talk.ready(Ok(())),
    }
}

pub fn remove_registered_worktree(git_dir: &FsPath, session: &mut Session) -> (result: Option<
    Result<(), Error>,
>)
    ensures
        final(session)@.ended(result) == remove_registered_run(git_dir@, old(session)@),
{
    match session.ask_kind(Request::Inspect(git_dir.clone()))? {
        Ok(EntryKind::Directory) => session.perform(Request::RemoveTree(git_dir.clone())),
        Ok(_) => session.perform(Request::RemoveFile(git_dir.clone())),
        Err(_) => Some(Ok(())),
    }
}

/// Copies the index of the source into the metadata of a worktree. Says whether there was one.
pub open spec fn copy_source_index_run(source: Seq<u8>, git_dir: Seq<u8>, talk: Talk) -> Run<bool> {
    crate::git::resolve_dirs_run(source, talk).and_then(
        |dirs: Option<GitDirsView>, t: Talk|
            match dirs {
                None => t.ready(Err(ErrorView::UnsafeGit("source is not a Git repository"@))),
                Some(dirs) => {
                    let index = crate::path::child(dirs.git_dir, "index"@);
                    t.ask_flag(RequestView::Exists(index)).and_then(
                        |there: bool, t: Talk|
                            if there {
                                t.perform(
                                    RequestView::CopyFile(
                                        index,
                                        crate::path::child(git_dir, "index"@),
                                    ),
                                ).and_then(|copied: (), t: Talk| t.ready(Ok(true)))
                            } else {
                                t.ready(Ok(false))
                            },
                    )
                },
            },
    )
}

pub fn copy_source_index(
    source: &FsPath,
    git_dir: &FsPath,
    session: &mut Session,
) -> (result: Option<Result<bool, Error>>)
    ensures
        final(session)@.ended(result) == copy_source_index_run(
            source@,
            git_dir@,
            old(session)@,
        ),
{
    let dirs = match resolve_dirs(source, session)? {
        Ok(Some(dirs)) => dirs,
        Ok(None) => return Some(
            Err(Error::UnsafeGit("source is not a Git repository".to_owned())),
        ),
        Err(error) => return Some(Err(error)),
    };
    let index = dirs.git_dir.join("index");
    if !session.ask_flag(Request::Exists(index.clone()))? {
        return Some(Ok(false));
    }
    match session.perform(Request::CopyFile(index, git_dir.join("index")))? {
        Ok(()) => Some(Ok(true)),
        Err(error) => Some(Err(error)),
    }
}

/// Where the metadata of a worktree lies in the store.
pub open spec fn worktree_dir_of(root_git_dir: Seq<u8>, id: Seq<char>) -> Seq<u8> {
    crate::path::child(crate::path::child(root_git_dir, "worktrees"@), id)
}

/// The files by which a copy and the store come to know each other.
pub open spec fn link_steps(
    destination: Seq<u8>,
    git_dir: Seq<u8>,
    head: HeadStateView,
) -> Seq<StepView> {
    let git = crate::path::child(destination, ".git"@);
    seq![
        pointer_step(git, git_dir),
        StepView::Act(
            RequestView::WriteText(
                crate::path::child(git_dir, "gitdir"@),
                shown(git) + "\n"@,
            ),
        ),
        StepView::Act(
            RequestView::WriteText(crate::path::child(git_dir, "commondir"@), "../..\n"@),
        ),
        StepView::Act(
            RequestView::WriteText(crate::path::child(git_dir, "HEAD"@), head.contents()),
        ),
    ]
}

fn link_plan(destination: &FsPath, git_dir: &FsPath, head: &HeadState) -> (plan: Vec<Step>)
    ensures
        plan.deep_view() == link_steps(destination@, git_dir@, head.deep_view()),
{
    let git = destination.join(".git");
    let plan = vec![
        Step::Act(pointer_request(&git, git_dir)),
        Step::Act(
            Request::WriteText(git_dir.join("gitdir"), concat(git.display().as_str(), "\n")),
        ),
        Step::Act(Request::WriteText(git_dir.join("commondir"), "../..\n".to_owned())),
        Step::Act(Request::WriteText(git_dir.join("HEAD"), head.contents())),
    ];
    assert(plan.deep_view() =~= link_steps(destination@, git_dir@, head.deep_view()));
    plan
}

/// Gives a worktree an index: that of the source, or else one that Git builds from the commit.
pub open spec fn index_run(
    source: Seq<u8>,
    destination: Seq<u8>,
    git_dir: Seq<u8>,
    head: HeadStateView,
    talk: Talk,
) -> Run<()> {
    copy_source_index_run(source, git_dir, talk).and_then(
        |copied: bool, t: Talk|
            match head {
                HeadStateView::Commit(commit) if !copied => step_run(
                    worktree_step(destination, seq!["reset"@, "--mixed"@, "--quiet"@, commit]),
                    t,
                ),
                _ => t.ready(Ok(())),
            },
    )
}

fn prepare_index(
    source: &FsPath,
    destination: &FsPath,
    git_dir: &FsPath,
    head: &HeadState,
    session: &mut Session,
) -> (result: Option<Result<(), Error>>)
    ensures
        final(session)@.ended(result) == index_run(
            source@,
            destination@,
            git_dir@,
            head.deep_view(),
            old(session)@,
        ),
{
    let copied = match copy_source_index(source, git_dir, session)? {
        Ok(copied) => copied,
        Err(error) => return Some(Err(error)),
    };
    if !copied {
        if let HeadState::Commit(commit) = head {
            let args = vec![
                "reset".to_owned(),
                "--mixed".to_owned(),
                "--quiet".to_owned(),
                commit.clone(),
            ];
            assert(args.deep_view() =~= seq!["reset"@, "--mixed"@, "--quiet"@, commit@]);
            return run_worktree(destination, args, session);
        }
    }
    Some(Ok(()))
}

/// The second half of a registration: the index, and the proof that Git accepts the result.
pub open spec fn complete_run(
    root_git_dir: Seq<u8>,
    source: Seq<u8>,
    destination: Seq<u8>,
    git_dir: Seq<u8>,
    head: HeadStateView,
    talk: Talk,
) -> Run<()> {
    index_run(source, destination, git_dir, head, talk).and_then(
        |indexed: (), t: Talk|
            step_run(validate_step(destination), t).and_then(
                |valid: (), t: Talk|
                    step_run(repository_step(root_git_dir, worktree_list_args()), t),
            ),
    )
}

fn complete(
    root_git_dir: &FsPath,
    source: &FsPath,
    destination: &FsPath,
    git_dir: &FsPath,
    head: &HeadState,
    session: &mut Session,
) -> (result: Option<Result<(), Error>>)
    ensures
        final(session)@.ended(result) == complete_run(
            root_git_dir@,
            source@,
            destination@,
            git_dir@,
            head.deep_view(),
            old(session)@,
        ),
{
    if let Err(error) = prepare_index(source, destination, git_dir, head, session)? {
        return Some(Err(error));
    }
    if let Err(error) = validate_worktree(destination, session)? {
        return Some(Err(error));
    }
    validate_worktree_list(root_git_dir, session)
}

/// The work of a registration, before anything is undone.
pub open spec fn register_work_run(
    root_git_dir: Seq<u8>,
    source: Seq<u8>,
    destination: Seq<u8>,
    git_dir: Seq<u8>,
    head: HeadStateView,
    talk: Talk,
) -> Run<()> {
    talk.perform(RequestView::CreateDirs(git_dir)).and_then(
        |made: (), t: Talk|
            remove_copied_run(destination, t).and_then(
                |removed: (), t: Talk|
                    steps_run(link_steps(destination, git_dir, head), t).and_then(
                        |linked: (), t: Talk|
                            complete_run(root_git_dir, source, destination, git_dir, head, t),
                    ),
            ),
    )
}

fn register_work(
    root_git_dir: &FsPath,
    source: &FsPath,
    destination: &FsPath,
    git_dir: &FsPath,
    head: &HeadState,
    session: &mut Session,
) -> (result: Option<Result<(), Error>>)
    ensures
        final(session)@.ended(result) == register_work_run(
            root_git_dir@,
            source@,
            destination@,
            git_dir@,
            head.deep_view(),
            old(session)@,
        ),
{
    if let Err(error) = session.perform(Request::CreateDirs(git_dir.clone()))? {
        return Some(Err(error));
    }
    if let Err(error) = remove_copied_git_entry(destination, session)? {
        return Some(Err(error));
    }
    if let Err(error) = follow(link_plan(destination, git_dir, head), session)? {
        return Some(Err(error));
    }
    complete(root_git_dir, source, destination, git_dir, head, session)
}

/// Registers a copied working tree with the store of its root. Where that fails, its metadata is
/// removed from the store again.
pub open spec fn register_cow_clone_run(
    root_git_dir: Seq<u8>,
    source: Seq<u8>,
    destination: Seq<u8>,
    id: Seq<char>,
    talk: Talk,
) -> Run<Seq<u8>> {
    let git_dir = worktree_dir_of(root_git_dir, id);
    head_state_run(source, talk).and_then(
        |head: HeadStateView, t: Talk|
            t.ask_flag(RequestView::Exists(git_dir)).and_then(
                |taken: bool, t: Talk|
                    if taken {
                        t.ready(Err(ErrorView::AlreadyExists(git_dir)))
                    } else {
                        register_or_undo_run(root_git_dir, source, destination, git_dir, head, t)
                    },
            ),
    )
}

/// A registration whose metadata is removed again where it fails.
pub open spec fn register_or_undo_run(
    root_git_dir: Seq<u8>,
    source: Seq<u8>,
    destination: Seq<u8>,
    git_dir: Seq<u8>,
    head: HeadStateView,
    talk: Talk,
) -> Run<Seq<u8>> {
    let done = register_work_run(root_git_dir, source, destination, git_dir, head, talk);
    match done.out {
        None => done.talk.waiting(),
        Some(Ok(_)) => done.talk.ready(Ok(git_dir)),
        Some(Err(error)) => remove_registered_run(git_dir, done.talk).succeeded().and_then(
            |removed: bool, t: Talk| t.ready(Err(error)),
        ),
    }
}

pub fn register_cow_clone(
    root_git_dir: &FsPath,
    source: &FsPath,
    destination: &FsPath,
    id: &RiftId,
    session: &mut Session,
) -> (result: Option<Result<RegisteredWorktree, Error>>)
    ensures
        final(session)@.ended(result) == register_cow_clone_run(
            root_git_dir@,
            source@,
            destination@,
            id@,
            old(session)@,
        ),
{
    let head = match head_state(source, session)? {
        Ok(head) => head,
        Err(error) => return Some(Err(error)),
    };
    let git_dir = root_git_dir.join("worktrees").join(id.as_str());
    if session.ask_flag(Request::Exists(git_dir.clone()))? {
        return Some(Err(Error::AlreadyExists(git_dir)));
    }
    match register_work(root_git_dir, source, destination, &git_dir, &head, session)? {
        Ok(()) => Some(Ok(RegisteredWorktree { git_dir })),
        Err(error) => {
            let _ = remove_registered_worktree(&git_dir, session)?;
            Some(Err(error))
        },
    }
}

/// Removes the store of a root, unless the path given is not one that a store can have.
pub open spec fn remove_shared_run(
    shared_git_dir: Seq<u8>,
    root_id: Seq<char>,
    talk: Talk,
) -> Run<()> {
    match crate::path::parent_of(shared_git_dir) {
        None => talk.ready(
            Err(ErrorView::Path("shared Git dir has no parent: "@ + shown(shared_git_dir))),
        ),
        Some(parent) => if is_store_path(shared_git_dir, root_id) {
            talk.ask_flag(RequestView::Exists(parent)).and_then(
                |there: bool, t: Talk|
                    if there {
                        t.perform(RequestView::RemoveTree(parent))
                    } else {
                        t.ready(Ok(()))
                    },
            )
        } else {
            talk.ready(
                Err(
                    ErrorView::UnsafeGit(
                        "refusing to remove shared Git storage outside Rift repository storage: "@
                            + shown(shared_git_dir),
                    ),
                ),
            )
        },
    }
}

/// Whether a path can be the store of a root: a directory `git` in one named after the root, with
/// no step upwards on the way.
pub open spec fn is_store_path(shared_git_dir: Seq<u8>, root_id: Seq<char>) -> bool {
    &&& !crate::path::climbs(shared_git_dir)
    &&& crate::path::name_of(shared_git_dir) == Some(encode_utf8("git"@))
    &&& crate::path::parent_of(shared_git_dir) matches Some(parent) && crate::path::name_of(parent)
        == Some(encode_utf8(root_id))
}

pub fn remove_shared_git_storage(
    shared_git_dir: &FsPath,
    root_id: &RiftId,
    session: &mut Session,
) -> (result: Option<Result<(), Error>>)
    ensures
        final(session)@.ended(result) == remove_shared_run(
            shared_git_dir@,
            root_id@,
            old(session)@,
        ),
{
    let parent = match shared_git_dir.parent() {
        Some(parent) => parent,
        None => return Some(
            Err(
                Error::Path(
                    concat("shared Git dir has no parent: ", shared_git_dir.display().as_str()),
                ),
            ),
        ),
    };
    if shared_git_dir.climbs() || !shared_git_dir.is_named("git") || !parent.is_named(
        root_id.as_str(),
    ) {
        return Some(
            Err(
                Error::UnsafeGit(
                    concat(
                        "refusing to remove shared Git storage outside Rift repository storage: ",
                        shared_git_dir.display().as_str(),
                    ),
                ),
            ),
        );
    }
    if session.ask_flag(Request::Exists(parent.clone()))? {
        return session.perform(Request::RemoveTree(parent));
    }
    Some(Ok(()))
}

/// Whether a path can be the metadata of a worktree in a store.
pub open spec fn is_worktree_path(root_git_dir: Seq<u8>, git_dir: Seq<u8>) -> bool {
    &&& !crate::path::climbs(root_git_dir)
    &&& !crate::path::climbs(git_dir)
    &&& crate::path::parent_of(git_dir) matches Some(parent) && crate::path::parts(parent)
        == crate::path::parts(crate::path::child(root_git_dir, "worktrees"@))
}

/// Refuses a path that is not that of worktree metadata in the store.
pub fn validate_worktree_dir(root_git_dir: &FsPath, git_dir: &FsPath) -> (result: Result<
    (),
    Error,
>)
    ensures
        result is Ok <==> is_worktree_path(root_git_dir@, git_dir@),
        result matches Err(error) ==> error@ == ErrorView::UnsafeGit(
            "refusing to remove Git metadata outside Rift worktree storage: "@ + shown(git_dir@),
        ),
{
    let worktrees = root_git_dir.join("worktrees");
    let in_worktrees = match git_dir.parent() {
        Some(parent) => parent.same_place(&worktrees),
        None => false,
    };
    if root_git_dir.climbs() || git_dir.climbs() || !in_worktrees {
        return Err(
            Error::UnsafeGit(
                concat(
                    "refusing to remove Git metadata outside Rift worktree storage: ",
                    git_dir.display().as_str(),
                ),
            ),
        );
    }
    Ok(())
}

/// Lets Git forget the worktrees that are gone.
pub open spec fn prune_step(root_git_dir: Seq<u8>) -> StepView {
    StepView::Command(
        PlaceView::GitDir(root_git_dir),
        seq!["worktree"@, "prune"@],
        "failed to prune Git worktrees"@,
    )
}

pub fn prune(root_git_dir: &FsPath, session: &mut Session) -> (result: Option<Result<(), Error>>)
    ensures
        final(session)@.ended(result) == step_run(prune_step(root_git_dir@), old(session)@),
{
    let args = vec!["worktree".to_owned(), "prune".to_owned()];
    assert(args.deep_view() =~= seq!["worktree"@, "prune"@]);
    follow_step(
        Step::Command(
            Place::GitDir(root_git_dir.clone()),
            args,
            "failed to prune Git worktrees".to_owned(),
        ),
        session,
    )
}

/// The error where a directory stands in the way of the inline repository.
pub open spec fn in_the_way(git: Seq<u8>) -> ErrorView {
    ErrorView::UnsafeGit(
        "cannot restore inline Git metadata over existing directory: "@ + shown(git),
    )
}

fn in_the_way_error(git: &FsPath) -> (error: Error)
    ensures
        error@ == in_the_way(git@),
{
    Error::UnsafeGit(
        concat(
            "cannot restore inline Git metadata over existing directory: ",
            git.display().as_str(),
        ),
    )
}

/// Whether what stands at the inline place is in the way of the shared repository.
pub open spec fn blocked_run(git: Seq<u8>, shared_git_dir: Seq<u8>, talk: Talk) -> Run<bool> {
    talk.ask_flag(RequestView::Exists(git)).and_then(
        |there: bool, t: Talk|
            if !there {
                t.ready(Ok(false))
            } else {
                t.ask_kind(RequestView::Inspect(git)).and_then(
                    |kind: EntryKind, t: Talk|
                        if kind == EntryKind::Directory {
                            t.ask_flag(RequestView::Exists(shared_git_dir))
                        } else {
                            t.ready(Ok(false))
                        },
                )
            },
    )
}

/// Refuses to restore where there is neither an inline repository nor a shared one.
pub open spec fn restorable_run(git: Seq<u8>, shared_git_dir: Seq<u8>, talk: Talk) -> Run<()> {
    talk.ask_flag(RequestView::IsDir(git)).and_then(
        |inline: bool, t: Talk|
            if inline {
                t.ready(Ok(()))
            } else {
                t.ask_flag(RequestView::Exists(shared_git_dir)).and_then(
                    |shared: bool, t: Talk|
                        if shared {
                            t.ready(Ok(()))
                        } else {
                            t.ready(
                                Err(
                                    ErrorView::UnsafeGit(
                                        "shared Git directory is missing: "@ + shown(
                                            shared_git_dir,
                                        ),
                                    ),
                                ),
                            )
                        },
                )
            },
    )
}

/// Refuses to restore an inline repository where a directory is in the way, or where there is
/// nothing to restore.
pub open spec fn validate_restore_run(
    worktree: Seq<u8>,
    shared_git_dir: Seq<u8>,
    talk: Talk,
) -> Run<()> {
    let git = crate::path::child(worktree, ".git"@);
    blocked_run(git, shared_git_dir, talk).and_then(
        |blocked: bool, t: Talk|
            if blocked {
                t.ready(Err(in_the_way(git)))
            } else {
                restorable_run(git, shared_git_dir, t)
            },
    )
}

pub fn validate_inline_root_restore(
    worktree: &FsPath,
    shared_git_dir: &FsPath,
    session: &mut Session,
) -> (result: Option<Result<(), Error>>)
    ensures
        final(session)@.ended(result) == validate_restore_run(
            worktree@,
            shared_git_dir@,
            old(session)@,
        ),
{
    let git = worktree.join(".git");
    if session.ask_flag(Request::Exists(git.clone()))? {
        let kind = match session.ask_kind(Request::Inspect(git.clone()))? {
            Ok(kind) => kind,
            Err(error) => return Some(Err(error)),
        };
        if kind == EntryKind::Directory {
            if session.ask_flag(Request::Exists(shared_git_dir.clone()))? {
                return Some(Err(in_the_way_error(&git)));
            }
        }
    }
    if !session.ask_flag(Request::IsDir(git))? {
        if !session.ask_flag(Request::Exists(shared_git_dir.clone()))? {
            return Some(
                Err(
                    Error::UnsafeGit(
                        concat(
                            "shared Git directory is missing: ",
                            shared_git_dir.display().as_str(),
                        ),
                    ),
                ),
            );
        }
    }
    Some(Ok(()))
}

/// Removes the directory that held a store, if it is empty now.
pub open spec fn remove_empty_parent_run(shared_git_dir: Seq<u8>, talk: Talk) -> Run<()> {
    match crate::path::parent_of(shared_git_dir) {
        None => talk.ready(Ok(())),
        Some(parent) => talk.attempt(RequestView::RemoveDir(parent)),
    }
}

pub fn remove_empty_storage_parent(shared_git_dir: &FsPath, session: &mut Session) -> (result:
    Option<()>)
    ensures
        final(session)@ == remove_empty_parent_run(shared_git_dir@, old(session)@).talk,
        remove_empty_parent_run(shared_git_dir@, old(session)@).out == (match result {
            None => None,
            Some(()) => Some(Ok::<(), ErrorView>(())),
        }),
{
    match shared_git_dir.parent() {
        Some(parent) => session.attempt(Request::RemoveDir(parent)),
        None => Some(()),
    }
}

/// The last part of a restoration, once the repository is at its inline place.
pub open spec fn settle_inline_run(git: Seq<u8>, shared_git_dir: Seq<u8>, talk: Talk) -> Run<()> {
    configure_inline_root_run(git, talk).and_then(
        |configured: (), t: Talk| remove_empty_parent_run(shared_git_dir, t),
    )
}

fn settle_inline(git: &FsPath, shared_git_dir: &FsPath, session: &mut Session) -> (result: Option<
    Result<(), Error>,
>)
    ensures
        final(session)@.ended(result) == settle_inline_run(
            git@,
            shared_git_dir@,
            old(session)@,
        ),
{
    if let Err(error) = configure_inline_root(git, session)? {
        return Some(Err(error));
    }
    remove_empty_storage_parent(shared_git_dir, session)?;
    Some(Ok(()))
}

/// Moves a shared repository back to its inline place. Where the move fails, the pointer to the
/// store is written again.
pub open spec fn bring_back_run(git: Seq<u8>, shared_git_dir: Seq<u8>, talk: Talk) -> Run<()> {
    let moved = move_dir_run(shared_git_dir, git, talk);
    match moved.out {
        None => moved.talk.waiting(),
        Some(Ok(_)) => settle_inline_run(git, shared_git_dir, moved.talk),
        Some(Err(error)) => step_run(
            pointer_step(git, shared_git_dir),
            moved.talk,
        ).succeeded().and_then(|pointed: bool, t: Talk| t.ready(Err(error))),
    }
}

fn bring_back(git: &FsPath, shared_git_dir: &FsPath, session: &mut Session) -> (result: Option<
    Result<(), Error>,
>)
    ensures
        final(session)@.ended(result) == bring_back_run(git@, shared_git_dir@, old(session)@),
{
    match move_dir(shared_git_dir, git, session)? {
        Ok(()) => settle_inline(git, shared_git_dir, session),
        Err(error) => {
            let _ = write_git_pointer(git, shared_git_dir, session)?;
            Some(Err(error))
        },
    }
}

/// Brings a shared repository back to an inline place that is taken. A directory there is taken for
/// the repository where there is no shared one; anything else there is removed first.
pub open spec fn take_over_run(git: Seq<u8>, shared_git_dir: Seq<u8>, talk: Talk) -> Run<()> {
    talk.ask_kind(RequestView::Inspect(git)).and_then(
        |kind: EntryKind, t: Talk|
            if kind == EntryKind::Directory {
                t.ask_flag(RequestView::Exists(shared_git_dir)).and_then(
                    |shared: bool, t: Talk|
                        if shared {
                            t.ready(Err(in_the_way(git)))
                        } else {
                            settle_inline_run(git, shared_git_dir, t)
                        },
                )
            } else {
                t.perform(RequestView::RemoveFile(git)).and_then(
                    |removed: (), t: Talk| bring_back_run(git, shared_git_dir, t),
                )
            },
    )
}

/// Makes a shared repository an inline one again.
pub open spec fn restore_inline_root_run(
    worktree: Seq<u8>,
    shared_git_dir: Seq<u8>,
    talk: Talk,
) -> Run<()> {
    let git = crate::path::child(worktree, ".git"@);
    validate_restore_run(worktree, shared_git_dir, talk).and_then(
        |valid: (), t: Talk|
            t.ask_flag(RequestView::Exists(git)).and_then(
                |there: bool, t: Talk|
                    if there {
                        take_over_run(git, shared_git_dir, t)
                    } else {
                        bring_back_run(git, shared_git_dir, t)
                    },
            ),
    )
}

pub fn restore_inline_root(
    worktree: &FsPath,
    shared_git_dir: &FsPath,
    session: &mut Session,
) -> (result: Option<Result<(), Error>>)
    ensures
        final(session)@.ended(result) == restore_inline_root_run(
            worktree@,
            shared_git_dir@,
            old(session)@,
        ),
{
    if let Err(error) = validate_inline_root_restore(worktree, shared_git_dir, session)? {
        return Some(Err(error));
    }
    let git = worktree.join(".git");
    if session.ask_flag(Request::Exists(git.clone()))? {
        let kind = match session.ask_kind(Request::Inspect(git.clone()))? {
            Ok(kind) => kind,
            Err(error) => return Some(Err(error)),
        };
        if kind == EntryKind::Directory {
            if session.ask_flag(Request::Exists(shared_git_dir.clone()))? {
                return Some(Err(in_the_way_error(&git)));
            }
            return settle_inline(&git, shared_git_dir, session);
        }
        if let Err(error) = session.perform(Request::RemoveFile(git.clone()))? {
            return Some(Err(error));
        }
    }
    bring_back(&git, shared_git_dir, session)
}

} // verus!
