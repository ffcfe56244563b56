//! Why an operation can be run again from the start with one answer more.
//!
//! An operation that is given more answers than before makes the same requests as before and only
//! then new ones, and one that had come to a result comes to the same result. Along with that goes
//! which kinds of requests an operation makes at all.

use crate::dialogue::{ReplyView, RequestView, Run, Talk};
use crate::schema::ColumnView;
use crate::worktree::{HeadStateView, StepView};
use crate::{git, path, schema, worktree};
use vstd::prelude::*;

verus! {

impl Talk {
    /// The same conversation with more answers at hand.
    pub open spec fn with(self, more: Seq<ReplyView>) -> Talk {
        Talk { answers: self.answers + more, asked: self.asked, rest: self.rest + more }
    }
}

/// Whether the later requests are the earlier ones and some more, all of these of the given kind.
#[verifier::opaque]
pub open spec fn adds(
    earlier: Seq<RequestView>,
    later: Seq<RequestView>,
    kind: spec_fn(RequestView) -> bool,
) -> bool {
    &&& earlier.len() <= later.len()
    &&& forall|i: int| 0 <= i < earlier.len() ==> #[trigger] later[i] == earlier[i]
    &&& forall|i: int| earlier.len() <= i < later.len() ==> kind(#[trigger] later[i])
}

/// Whether a conversation was carried on: the answers stay, and requests of the given kind were
/// added.
pub open spec fn grows(talk: Talk, later: Talk, kind: spec_fn(RequestView) -> bool) -> bool {
    adds(talk.asked, later.asked, kind) && later.answers == talk.answers
}

/// Whether a conversation was carried on by requests of the given kind, each of which used up one
/// answer, but for the last one where that is still waited for.
#[verifier::opaque]
pub open spec fn reaches(
    talk: Talk,
    later: Talk,
    waiting: bool,
    kind: spec_fn(RequestView) -> bool,
) -> bool {
    &&& grows(talk, later, kind)
    &&& later.asked.len() + later.rest.len() == talk.asked.len() + talk.rest.len() + (if waiting {
        1int
    } else {
        0
    })
    &&& waiting ==> later.rest.len() == 0
}

/// Whether an operation carries a conversation on by requests of the given kind, and waits only
/// where its last request has no answer.
pub open spec fn steady<T>(talk: Talk, run: Run<T>, kind: spec_fn(RequestView) -> bool) -> bool {
    reaches(talk, run.talk, run.out is None, kind)
}

/// Whether `again`, the run with more answers, carries on `run`, which began at `talk`: where
/// `run` had a result, `again` has it too and leaves the new answers alone; where `run` was
/// waiting, `again` makes the same requests first.
pub open spec fn carries_on<T>(
    talk: Talk,
    run: Run<T>,
    again: Run<T>,
    more: Seq<ReplyView>,
    kind: spec_fn(RequestView) -> bool,
) -> bool {
    &&& steady(talk, run, kind)
    &&& run.out is Some ==> again.out == run.out && again.talk == run.talk.with(more)
    &&& run.out is None ==> adds(run.talk.asked, again.talk.asked, kind)
}

/// The conversation that begins with all the answers at hand.
pub open spec fn beginning(answers: Seq<ReplyView>) -> Talk {
    Talk { answers, asked: Seq::empty(), rest: answers }
}

/// An operation that waits, run from the beginning, has used up all the answers, and it is the
/// last request that it waits for: every request before it got its answer.
pub proof fn last_request_is_the_one_without_an_answer<T>(
    answers: Seq<ReplyView>,
    run: Run<T>,
    kind: spec_fn(RequestView) -> bool,
)
    requires
        steady(beginning(answers), run, kind),
        run.out is None,
    ensures
        run.talk.asked.len() == answers.len() + 1,
{
    reveal(reaches);
}

/// Requests that change nothing.
pub open spec fn reads(request: RequestView) -> bool {
    match request {
        RequestView::Exists(_) => true,
        RequestView::IsDir(_) => true,
        RequestView::Inspect(_) => true,
        RequestView::ReadText(_) => true,
        RequestView::Canonicalize(_) => true,
        RequestView::HeadCommit(_) => true,
        RequestView::TableColumns(_) => true,
        RequestView::Git(_, args) => args.len() > 0 && args[0] == "rev-parse"@,
        _ => false,
    }
}

/// The kind of requests that change nothing.
pub open spec fn reading() -> spec_fn(RequestView) -> bool {
    |request: RequestView| reads(request)
}

/// All requests.
pub open spec fn any() -> spec_fn(RequestView) -> bool {
    |request: RequestView| true
}

/// What one request adds, and that additions add up.
pub proof fn lemma_one_request()
    ensures
        forall|talk: Talk, request: RequestView, more: Seq<ReplyView>|
            #![trigger talk.with(more).after(request)]
            talk.with(more).after(request).asked == talk.after(request).asked && (talk.rest.len()
                > 0 ==> talk.with(more).after(request) == talk.after(request).with(more)
                && talk.with(more).next_reply() == talk.next_reply()),
        forall|asked: Seq<RequestView>, kind: spec_fn(RequestView) -> bool|
            #[trigger] adds(asked, asked, kind),
        forall|
            a: Seq<RequestView>,
            b: Seq<RequestView>,
            c: Seq<RequestView>,
            kind: spec_fn(RequestView) -> bool,
        |
            #![trigger adds(a, b, kind), adds(b, c, kind)]
            adds(a, b, kind) && adds(b, c, kind) ==> adds(a, c, kind),
        forall|a: Seq<RequestView>, b: Seq<RequestView>|
            #[trigger] adds(a, b, reading()) ==> adds(a, b, any()),
        forall|talk: Talk, kind: spec_fn(RequestView) -> bool|
            #[trigger] reaches(talk, talk, false, kind),
        forall|talk: Talk, request: RequestView|
            #![trigger talk.after(request)]
            reaches(talk, talk.after(request), talk.rest.len() == 0, any()) && (reads(request)
                ==> reaches(talk, talk.after(request), talk.rest.len() == 0, reading())),
        forall|a: Talk, b: Talk, waiting: bool|
            #[trigger] reaches(a, b, waiting, reading()) ==> reaches(a, b, waiting, any()),
        forall|
            a: Talk,
            b: Talk,
            c: Talk,
            waiting: bool,
            kind: spec_fn(RequestView) -> bool,
        |
            #![trigger reaches(a, b, false, kind), reaches(b, c, waiting, kind)]
            reaches(a, b, false, kind) && reaches(b, c, waiting, kind) ==> reaches(
                a,
                c,
                waiting,
                kind,
            ),
        forall|a: Talk, b: Talk, waiting: bool, kind: spec_fn(RequestView) -> bool|
            #[trigger] reaches(a, b, waiting, kind) ==> grows(a, b, kind),
{
    reveal(adds);
    reveal(reaches);
    assert forall|talk: Talk, request: RequestView, more: Seq<ReplyView>|
        #![trigger talk.with(more).after(request)]
        talk.with(more).after(request).asked == talk.after(request).asked && (talk.rest.len() > 0
            ==> talk.with(more).after(request) == talk.after(request).with(more)
            && talk.with(more).next_reply() == talk.next_reply()) by {
        if talk.rest.len() > 0 {
            assert((talk.rest + more).drop_first() =~= talk.rest.drop_first() + more);
        }
    }
    assert forall|
        a: Seq<RequestView>,
        b: Seq<RequestView>,
        c: Seq<RequestView>,
        kind: spec_fn(RequestView) -> bool,
    |
        #![trigger adds(a, b, kind), adds(b, c, kind)]
        adds(a, b, kind) && adds(b, c, kind) implies adds(a, c, kind) by {
        assert forall|i: int| 0 <= i < a.len() implies #[trigger] c[i] == a[i] by {
            assert(b[i] == a[i]);
        }
        assert forall|i: int| a.len() <= i < c.len() implies kind(#[trigger] c[i]) by {
            if i < b.len() {
                assert(c[i] == b[i]);
            }
        }
    }
    assert forall|
        a: Talk,
        b: Talk,
        c: Talk,
        waiting: bool,
        kind: spec_fn(RequestView) -> bool,
    |
        #![trigger reaches(a, b, false, kind), reaches(b, c, waiting, kind)]
        reaches(a, b, false, kind) && reaches(b, c, waiting, kind) implies reaches(
        a,
        c,
        waiting,
        kind,
    ) by {
        assert(adds(a.asked, b.asked, kind) && adds(b.asked, c.asked, kind));
    }
}

/// `git_path_run` can be run again with more answers, and it changes nothing.
pub proof fn git_path(path: Seq<u8>, flag: Seq<char>)
    ensures
        forall|talk: Talk|
            steady(
                talk,
                #[trigger] git::git_path_run(path, flag, talk),
                reading(),
            ),
        forall|talk: Talk, more: Seq<ReplyView>|
            carries_on(
                talk,
                git::git_path_run(path, flag, talk),
                #[trigger] git::git_path_run(path, flag, talk.with(more)),
                more,
                reading(),
            ),
{
    lemma_one_request();
}

/// `resolve_dirs_run` can be run again with more answers, and it changes nothing.
pub proof fn resolve_dirs(path: Seq<u8>)
    ensures
        forall|talk: Talk|
            steady(
                talk,
                #[trigger] git::resolve_dirs_run(path, talk),
                reading(),
            ),
        forall|talk: Talk, more: Seq<ReplyView>|
            carries_on(
                talk,
                git::resolve_dirs_run(path, talk),
                #[trigger] git::resolve_dirs_run(path, talk.with(more)),
                more,
                reading(),
            ),
{
    lemma_one_request();
    git_path(path, "--git-dir"@);
    git_path(path, "--git-common-dir"@);
}

/// `no_state_run` can be run again with more answers, and it changes nothing.
proof fn no_state(from: int)
    ensures
        forall|talk: Talk, git_dir: Seq<u8>|
            steady(
                talk,
                #[trigger] git::no_state_run(git_dir, from, talk),
                reading(),
            ),
        forall|talk: Talk, more: Seq<ReplyView>, git_dir: Seq<u8>|
            carries_on(
                talk,
                git::no_state_run(git_dir, from, talk),
                #[trigger] git::no_state_run(git_dir, from, talk.with(more)),
                more,
                reading(),
            ),
    decreases git::busy_states().len() - from,
{
    lemma_one_request();
    if from < git::busy_states().len() {
        no_state(from + 1);
    }
    assert forall|talk: Talk, git_dir: Seq<u8>| steady(
        talk,
        #[trigger] git::no_state_run(git_dir, from, talk),
        reading(),
    ) by {
        if from < git::busy_states().len() {
            let request = RequestView::Exists(
                path::child(git_dir, git::busy_states()[from]),
            );
            let first = talk.ask_flag(request);
            let rest = git::no_state_run(git_dir, from + 1, first.talk);
            assert(adds(first.talk.asked, rest.talk.asked, reading()));
        }
    }
    assert forall|talk: Talk, more: Seq<ReplyView>, git_dir: Seq<u8>| carries_on(
        talk,
        git::no_state_run(git_dir, from, talk),
        #[trigger] git::no_state_run(git_dir, from, talk.with(more)),
        more,
        reading(),
    ) by {
        if from < git::busy_states().len() {
            let request = RequestView::Exists(
                path::child(git_dir, git::busy_states()[from]),
            );
            let first = talk.with(more).ask_flag(request);
            let rest = git::no_state_run(git_dir, from + 1, first.talk);
            assert(adds(first.talk.asked, rest.talk.asked, reading()));
            let earlier = talk.ask_flag(request);
            assert(carries_on(
                earlier.talk,
                git::no_state_run(git_dir, from + 1, earlier.talk),
                git::no_state_run(git_dir, from + 1, earlier.talk.with(more)),
                more,
                reading(),
            ));
        }
    }
}

/// `check_safe_state_run` can be run again with more answers, and it changes nothing.
pub proof fn check_safe_state(path: Seq<u8>)
    ensures
        forall|talk: Talk|
            steady(
                talk,
                #[trigger] git::check_safe_state_run(path, talk),
                reading(),
            ),
        forall|talk: Talk, more: Seq<ReplyView>|
            carries_on(
                talk,
                git::check_safe_state_run(path, talk),
                #[trigger] git::check_safe_state_run(path, talk.with(more)),
                more,
                reading(),
            ),
{
    lemma_one_request();
    resolve_dirs(path);
    no_state(0);
}

/// `check_source_run` can be run again with more answers, and it changes nothing.
pub proof fn check_source(path: Seq<u8>)
    ensures
        forall|talk: Talk|
            steady(
                talk,
                #[trigger] git::check_source_run(path, talk),
                reading(),
            ),
        forall|talk: Talk, more: Seq<ReplyView>|
            carries_on(
                talk,
                git::check_source_run(path, talk),
                #[trigger] git::check_source_run(path, talk.with(more)),
                more,
                reading(),
            ),
{
    lemma_one_request();
    check_safe_state(path);
}

/// `check_source_allow_worktree_run` can be run again with more answers, and it changes nothing.
pub proof fn check_source_allow_worktree(path: Seq<u8>)
    ensures
        forall|talk: Talk|
            steady(
                talk,
                #[trigger] git::check_source_allow_worktree_run(path, talk),
                reading(),
            ),
        forall|talk: Talk, more: Seq<ReplyView>|
            carries_on(
                talk,
                git::check_source_allow_worktree_run(path, talk),
                #[trigger] git::check_source_allow_worktree_run(path, talk.with(more)),
                more,
                reading(),
            ),
{
    lemma_one_request();
    resolve_dirs(path);
    check_safe_state(path);
}

/// `read_or_empty_run` can be run again with more answers, and it changes nothing.
proof fn read_or_empty()
    ensures
        forall|talk: Talk, path: Seq<u8>|
            steady(
                talk,
                #[trigger] git::read_or_empty_run(path, talk),
                reading(),
            ),
        forall|talk: Talk, more: Seq<ReplyView>, path: Seq<u8>|
            carries_on(
                talk,
                git::read_or_empty_run(path, talk),
                #[trigger] git::read_or_empty_run(path, talk.with(more)),
                more,
                reading(),
            ),
{
    lemma_one_request();
}

/// `add_marker_run` can be run again with more answers.
proof fn add_marker()
    ensures
        forall|talk: Talk, common_dir: Seq<u8>|
            steady(
                talk,
                #[trigger] git::add_marker_run(common_dir, talk),
                any(),
            ),
        forall|talk: Talk, more: Seq<ReplyView>, common_dir: Seq<u8>|
            carries_on(
                talk,
                git::add_marker_run(common_dir, talk),
                #[trigger] git::add_marker_run(common_dir, talk.with(more)),
                more,
                any(),
            ),
{
    lemma_one_request();
    read_or_empty();
}

/// `hide_marker_run` can be run again with more answers.
pub proof fn hide_marker(path: Seq<u8>)
    ensures
        forall|talk: Talk|
            steady(
                talk,
                #[trigger] git::hide_marker_run(path, talk),
                any(),
            ),
        forall|talk: Talk, more: Seq<ReplyView>|
            carries_on(
                talk,
                git::hide_marker_run(path, talk),
                #[trigger] git::hide_marker_run(path, talk.with(more)),
                more,
                any(),
            ),
{
    lemma_one_request();
    resolve_dirs(path);
    add_marker();
}

/// `detach_at_run` can be run again with more answers.
proof fn detach_at(path: Seq<u8>)
    ensures
        forall|talk: Talk, commit: Seq<char>|
            steady(
                talk,
                #[trigger] git::detach_at_run(path, commit, talk),
                any(),
            ),
        forall|talk: Talk, more: Seq<ReplyView>, commit: Seq<char>|
            carries_on(
                talk,
                git::detach_at_run(path, commit, talk),
                #[trigger] git::detach_at_run(path, commit, talk.with(more)),
                more,
                any(),
            ),
{
    lemma_one_request();
    resolve_dirs(path);
}

/// `detach_destination_run` can be run again with more answers.
pub proof fn detach_destination(path: Seq<u8>)
    ensures
        forall|talk: Talk|
            steady(
                talk,
                #[trigger] git::detach_destination_run(path, talk),
                any(),
            ),
        forall|talk: Talk, more: Seq<ReplyView>|
            carries_on(
                talk,
                git::detach_destination_run(path, talk),
                #[trigger] git::detach_destination_run(path, talk.with(more)),
                more,
                any(),
            ),
{
    lemma_one_request();
    detach_at(path);
}

/// `step_run` can be run again with more answers.
proof fn step()
    ensures
        forall|talk: Talk, step: StepView|
            steady(
                talk,
                #[trigger] worktree::step_run(step, talk),
                any(),
            ),
        forall|talk: Talk, more: Seq<ReplyView>, step: StepView|
            carries_on(
                talk,
                worktree::step_run(step, talk),
                #[trigger] worktree::step_run(step, talk.with(more)),
                more,
                any(),
            ),
{
    lemma_one_request();
}

/// `steps_run` can be run again with more answers.
pub proof fn steps(most: nat)
    ensures
        forall|talk: Talk, steps: Seq<StepView>|
            steps.len() <= most ==> steady(
                talk,
                #[trigger] worktree::steps_run(steps, talk),
                any(),
            ),
        forall|talk: Talk, more: Seq<ReplyView>, steps: Seq<StepView>|
            steps.len() <= most ==> carries_on(
                talk,
                worktree::steps_run(steps, talk),
                #[trigger] worktree::steps_run(steps, talk.with(more)),
                more,
                any(),
            ),
    decreases most,
{
    lemma_one_request();
    step();
    if most > 0 {
        steps((most - 1) as nat);
    }
    assert forall|talk: Talk, steps: Seq<StepView>| steps.len() <= most implies steady(
        talk,
        #[trigger] worktree::steps_run(steps, talk),
        any(),
    ) by {
        if steps.len() > 0 {
            let first = worktree::step_run(steps[0], talk);
            let rest = worktree::steps_run(steps.drop_first(), first.talk);
            assert(adds(first.talk.asked, rest.talk.asked, any()));
        }
    }
    assert forall|talk: Talk, more: Seq<ReplyView>, steps: Seq<StepView>|
        steps.len() <= most implies carries_on(
        talk,
        worktree::steps_run(steps, talk),
        #[trigger] worktree::steps_run(steps, talk.with(more)),
        more,
        any(),
    ) by {
        if steps.len() > 0 {
            let first = worktree::step_run(steps[0], talk.with(more));
            let rest = worktree::steps_run(steps.drop_first(), first.talk);
            assert(adds(first.talk.asked, rest.talk.asked, any()));
            let earlier = worktree::step_run(steps[0], talk);
            assert(carries_on(
                earlier.talk,
                worktree::steps_run(steps.drop_first(), earlier.talk),
                worktree::steps_run(steps.drop_first(), earlier.talk.with(more)),
                more,
                any(),
            ));
        }
    }
}

/// `configure_inline_root_run` can be run again with more answers.
pub proof fn configure_inline_root(git_dir: Seq<u8>)
    ensures
        forall|talk: Talk|
            steady(
                talk,
                #[trigger] worktree::configure_inline_root_run(git_dir, talk),
                any(),
            ),
        forall|talk: Talk, more: Seq<ReplyView>|
            carries_on(
                talk,
                worktree::configure_inline_root_run(git_dir, talk),
                #[trigger] worktree::configure_inline_root_run(git_dir, talk.with(more)),
                more,
                any(),
            ),
{
    lemma_one_request();
    step();
}

/// `real_directory_run` can be run again with more answers, and it changes nothing.
pub proof fn real_directory(path: Seq<u8>)
    ensures
        forall|talk: Talk|
            steady(
                talk,
                #[trigger] worktree::real_directory_run(path, talk),
                reading(),
            ),
        forall|talk: Talk, more: Seq<ReplyView>|
            carries_on(
                talk,
                worktree::real_directory_run(path, talk),
                #[trigger] worktree::real_directory_run(path, talk.with(more)),
                more,
                reading(),
            ),
{
    lemma_one_request();
}

/// `ensure_toplevel_run` can be run again with more answers, and it changes nothing.
pub proof fn ensure_toplevel(path: Seq<u8>)
    ensures
        forall|talk: Talk|
            steady(
                talk,
                #[trigger] worktree::ensure_toplevel_run(path, talk),
                reading(),
            ),
        forall|talk: Talk, more: Seq<ReplyView>|
            carries_on(
                talk,
                worktree::ensure_toplevel_run(path, talk),
                #[trigger] worktree::ensure_toplevel_run(path, talk.with(more)),
                more,
                reading(),
            ),
{
    lemma_one_request();
}

/// `move_dir_run` can be run again with more answers.
pub proof fn move_dir(source: Seq<u8>, destination: Seq<u8>)
    ensures
        forall|talk: Talk|
            steady(
                talk,
                #[trigger] worktree::move_dir_run(source, destination, talk),
                any(),
            ),
        forall|talk: Talk, more: Seq<ReplyView>|
            carries_on(
                talk,
                worktree::move_dir_run(source, destination, talk),
                #[trigger] worktree::move_dir_run(source, destination, talk.with(more)),
                more,
                any(),
            ),
{
    lemma_one_request();
    steps(3);
}

/// `restore_git_dir_run` can be run again with more answers.
pub proof fn restore_git_dir(source: Seq<u8>, destination: Seq<u8>)
    ensures
        forall|talk: Talk|
            steady(
                talk,
                #[trigger] worktree::restore_git_dir_run(
                    source,
                    destination,
                    talk,
                ),
                any(),
            ),
        forall|talk: Talk, more: Seq<ReplyView>|
            carries_on(
                talk,
                worktree::restore_git_dir_run(source, destination, talk),
                #[trigger] worktree::restore_git_dir_run(
                    source,
                    destination,
                    talk.with(more),
                ),
                more,
                any(),
            ),
{
    lemma_one_request();
    move_dir(source, destination);
}

/// `put_back_run` can be run again with more answers.
proof fn put_back(inline_git: Seq<u8>, staging_git: Seq<u8>, final_git: Seq<u8>)
    ensures
        forall|talk: Talk|
            steady(
                talk,
                #[trigger] worktree::put_back_run(
                    inline_git,
                    staging_git,
                    final_git,
                    talk,
                ),
                any(),
            ),
        forall|talk: Talk, more: Seq<ReplyView>|
            carries_on(
                talk,
                worktree::put_back_run(inline_git, staging_git, final_git, talk),
                #[trigger] worktree::put_back_run(
                    inline_git,
                    staging_git,
                    final_git,
                    talk.with(more),
                ),
                more,
                any(),
            ),
{
    lemma_one_request();
    restore_git_dir(final_git, inline_git);
    restore_git_dir(staging_git, inline_git);
}

/// `rollback_run` can be run again with more answers.
pub proof fn rollback(
    inline_git: Seq<u8>,
    staging_git: Seq<u8>,
    final_git: Seq<u8>,
    staging_parent: Seq<u8>,
    final_parent: Seq<u8>,
)
    ensures
        forall|talk: Talk|
            steady(
                talk,
                #[trigger] worktree::rollback_run(
                    inline_git,
                    staging_git,
                    final_git,
                    staging_parent,
                    final_parent,
                    talk,
                ),
                any(),
            ),
        forall|talk: Talk, more: Seq<ReplyView>|
            carries_on(
                talk,
                worktree::rollback_run(
                    inline_git,
                    staging_git,
                    final_git,
                    staging_parent,
                    final_parent,
                    talk,
                ),
                #[trigger] worktree::rollback_run(
                    inline_git,
                    staging_git,
                    final_git,
                    staging_parent,
                    final_parent,
                    talk.with(more),
                ),
                more,
                any(),
            ),
{
    lemma_one_request();
    put_back(inline_git, staging_git, final_git);
}

/// `initialize_moves_run` can be run again with more answers.
pub proof fn initialize_moves(
    path: Seq<u8>,
    repos: Seq<u8>,
    staging_parent: Seq<u8>,
    final_parent: Seq<u8>,
    final_git: Seq<u8>,
)
    ensures
        forall|talk: Talk|
            steady(
                talk,
                #[trigger] worktree::initialize_moves_run(
                    path,
                    repos,
                    staging_parent,
                    final_parent,
                    final_git,
                    talk,
                ),
                any(),
            ),
        forall|talk: Talk, more: Seq<ReplyView>|
            carries_on(
                talk,
                worktree::initialize_moves_run(
                    path,
                    repos,
                    staging_parent,
                    final_parent,
                    final_git,
                    talk,
                ),
                #[trigger] worktree::initialize_moves_run(
                    path,
                    repos,
                    staging_parent,
                    final_parent,
                    final_git,
                    talk.with(more),
                ),
                more,
                any(),
            ),
{
    lemma_one_request();
    steps(12);
    rollback(
        path::child(path, ".git"@),
        path::child(staging_parent, "git"@),
        final_git,
        staging_parent,
        final_parent,
    );
}

/// `initialize_store_run` can be run again with more answers.
proof fn initialize_store(path: Seq<u8>, final_parent: Seq<u8>, final_git: Seq<u8>)
    ensures
        forall|talk: Talk|
            steady(
                talk,
                #[trigger] worktree::initialize_store_run(
                    path,
                    final_parent,
                    final_git,
                    talk,
                ),
                any(),
            ),
        forall|talk: Talk, more: Seq<ReplyView>|
            carries_on(
                talk,
                worktree::initialize_store_run(path, final_parent, final_git, talk),
                #[trigger] worktree::initialize_store_run(
                    path,
                    final_parent,
                    final_git,
                    talk.with(more),
                ),
                more,
                any(),
            ),
{
    lemma_one_request();
    if let Some(repos) = path::parent_of(final_parent) {
        initialize_moves(
            path,
            repos,
            path::with_extension_of(final_parent, vstd::utf8::encode_utf8("tmp"@)),
            final_parent,
            final_git,
        );
    }
}

/// `initialize_root_run` can be run again with more answers.
pub proof fn initialize_root(path: Seq<u8>, root_id: Seq<char>, repo_storage: Seq<u8>)
    ensures
        forall|talk: Talk|
            steady(
                talk,
                #[trigger] worktree::initialize_root_run(
                    path,
                    root_id,
                    repo_storage,
                    talk,
                ),
                any(),
            ),
        forall|talk: Talk, more: Seq<ReplyView>|
            carries_on(
                talk,
                worktree::initialize_root_run(path, root_id, repo_storage, talk),
                #[trigger] worktree::initialize_root_run(
                    path,
                    root_id,
                    repo_storage,
                    talk.with(more),
                ),
                more,
                any(),
            ),
{
    lemma_one_request();
    real_directory(path::child(path, ".git"@));
    ensure_toplevel(path);
    let final_git = worktree::shared_git_dir_of(repo_storage, root_id);
    if let Some(final_parent) = path::parent_of(final_git) {
        initialize_store(
            path,
            final_parent,
            worktree::shared_git_dir_of(repo_storage, root_id),
        );
    }
}

/// `head_state_run` can be run again with more answers, and it changes nothing.
pub proof fn head_state(path: Seq<u8>)
    ensures
        forall|talk: Talk|
            steady(
                talk,
                #[trigger] worktree::head_state_run(path, talk),
                reading(),
            ),
        forall|talk: Talk, more: Seq<ReplyView>|
            carries_on(
                talk,
                worktree::head_state_run(path, talk),
                #[trigger] worktree::head_state_run(path, talk.with(more)),
                more,
                reading(),
            ),
{
    lemma_one_request();
    resolve_dirs(path);
}

/// `ensure_head_commit_run` can be run again with more answers, and it changes nothing.
pub proof fn ensure_head_commit(path: Seq<u8>)
    ensures
        forall|talk: Talk|
            steady(
                talk,
                #[trigger] worktree::ensure_head_commit_run(path, talk),
                reading(),
            ),
        forall|talk: Talk, more: Seq<ReplyView>|
            carries_on(
                talk,
                worktree::ensure_head_commit_run(path, talk),
                #[trigger] worktree::ensure_head_commit_run(path, talk.with(more)),
                more,
                reading(),
            ),
{
    lemma_one_request();
    head_state(path);
}

/// `remove_copied_run` can be run again with more answers.
pub proof fn remove_copied(destination: Seq<u8>)
    ensures
        forall|talk: Talk|
            steady(
                talk,
                #[trigger] worktree::remove_copied_run(destination, talk),
                any(),
            ),
        forall|talk: Talk, more: Seq<ReplyView>|
            carries_on(
                talk,
                worktree::remove_copied_run(destination, talk),
                #[trigger] worktree::remove_copied_run(destination, talk.with(more)),
                more,
                any(),
            ),
{
    lemma_one_request();
}

/// `remove_registered_run` can be run again with more answers.
pub proof fn remove_registered(git_dir: Seq<u8>)
    ensures
        forall|talk: Talk|
            steady(
                talk,
                #[trigger] worktree::remove_registered_run(git_dir, talk),
                any(),
            ),
        forall|talk: Talk, more: Seq<ReplyView>|
            carries_on(
                talk,
                worktree::remove_registered_run(git_dir, talk),
                #[trigger] worktree::remove_registered_run(git_dir, talk.with(more)),
                more,
                any(),
            ),
{
    lemma_one_request();
}

/// `copy_source_index_run` can be run again with more answers.
pub proof fn copy_source_index(source: Seq<u8>, git_dir: Seq<u8>)
    ensures
        forall|talk: Talk|
            steady(
                talk,
                #[trigger] worktree::copy_source_index_run(source, git_dir, talk),
                any(),
            ),
        forall|talk: Talk, more: Seq<ReplyView>|
            carries_on(
                talk,
                worktree::copy_source_index_run(source, git_dir, talk),
                #[trigger] worktree::copy_source_index_run(
                    source,
                    git_dir,
                    talk.with(more),
                ),
                more,
                any(),
            ),
{
    lemma_one_request();
    resolve_dirs(source);
}

/// `index_run` can be run again with more answers.
proof fn index(source: Seq<u8>, destination: Seq<u8>, git_dir: Seq<u8>)
    ensures
        forall|talk: Talk, head: HeadStateView|
            steady(
                talk,
                #[trigger] worktree::index_run(
                    source,
                    destination,
                    git_dir,
                    head,
                    talk,
                ),
                any(),
            ),
        forall|talk: Talk, more: Seq<ReplyView>, head: HeadStateView|
            carries_on(
                talk,
                worktree::index_run(source, destination, git_dir, head, talk),
                #[trigger] worktree::index_run(
                    source,
                    destination,
                    git_dir,
                    head,
                    talk.with(more),
                ),
                more,
                any(),
            ),
{
    lemma_one_request();
    copy_source_index(source, git_dir);
    step();
}

/// `complete_run` can be run again with more answers.
proof fn complete(
    root_git_dir: Seq<u8>,
    source: Seq<u8>,
    destination: Seq<u8>,
    git_dir: Seq<u8>,
)
    ensures
        forall|talk: Talk, head: HeadStateView|
            steady(
                talk,
                #[trigger] worktree::complete_run(
                    root_git_dir,
                    source,
                    destination,
                    git_dir,
                    head,
                    talk,
                ),
                any(),
            ),
        forall|talk: Talk, more: Seq<ReplyView>, head: HeadStateView|
            carries_on(
                talk,
                worktree::complete_run(
                    root_git_dir,
                    source,
                    destination,
                    git_dir,
                    head,
                    talk,
                ),
                #[trigger] worktree::complete_run(
                    root_git_dir,
                    source,
                    destination,
                    git_dir,
                    head,
                    talk.with(more),
                ),
                more,
                any(),
            ),
{
    lemma_one_request();
    index(source, destination, git_dir);
    step();
}

/// `register_work_run` can be run again with more answers.
proof fn register_work(
    root_git_dir: Seq<u8>,
    source: Seq<u8>,
    destination: Seq<u8>,
    git_dir: Seq<u8>,
)
    ensures
        forall|talk: Talk, head: HeadStateView|
            steady(
                talk,
                #[trigger] worktree::register_work_run(
                    root_git_dir,
                    source,
                    destination,
                    git_dir,
                    head,
                    talk,
                ),
                any(),
            ),
        forall|talk: Talk, more: Seq<ReplyView>, head: HeadStateView|
            carries_on(
                talk,
                worktree::register_work_run(
                    root_git_dir,
                    source,
                    destination,
                    git_dir,
                    head,
                    talk,
                ),
                #[trigger] worktree::register_work_run(
                    root_git_dir,
                    source,
                    destination,
                    git_dir,
                    head,
                    talk.with(more),
                ),
                more,
                any(),
            ),
{
    lemma_one_request();
    remove_copied(destination);
    steps(4);
    complete(root_git_dir, source, destination, git_dir);
}

/// `register_or_undo_run` can be run again with more answers.
proof fn register_or_undo(
    root_git_dir: Seq<u8>,
    source: Seq<u8>,
    destination: Seq<u8>,
    git_dir: Seq<u8>,
)
    ensures
        forall|talk: Talk, head: HeadStateView|
            steady(
                talk,
                #[trigger] worktree::register_or_undo_run(
                    root_git_dir,
                    source,
                    destination,
                    git_dir,
                    head,
                    talk,
                ),
                any(),
            ),
        forall|talk: Talk, more: Seq<ReplyView>, head: HeadStateView|
            carries_on(
                talk,
                worktree::register_or_undo_run(
                    root_git_dir,
                    source,
                    destination,
                    git_dir,
                    head,
                    talk,
                ),
                #[trigger] worktree::register_or_undo_run(
                    root_git_dir,
                    source,
                    destination,
                    git_dir,
                    head,
                    talk.with(more),
                ),
                more,
                any(),
            ),
{
    lemma_one_request();
    register_work(root_git_dir, source, destination, git_dir);
    remove_registered(git_dir);
}

/// `register_cow_clone_run` can be run again with more answers.
pub proof fn register_cow_clone(
    root_git_dir: Seq<u8>,
    source: Seq<u8>,
    destination: Seq<u8>,
    id: Seq<char>,
)
    ensures
        forall|talk: Talk|
            steady(
                talk,
                #[trigger] worktree::register_cow_clone_run(
                    root_git_dir,
                    source,
                    destination,
                    id,
                    talk,
                ),
                any(),
            ),
        forall|talk: Talk, more: Seq<ReplyView>|
            carries_on(
                talk,
                worktree::register_cow_clone_run(
                    root_git_dir,
                    source,
                    destination,
                    id,
                    talk,
                ),
                #[trigger] worktree::register_cow_clone_run(
                    root_git_dir,
                    source,
                    destination,
                    id,
                    talk.with(more),
                ),
                more,
                any(),
            ),
{
    lemma_one_request();
    head_state(source);
    register_or_undo(
        root_git_dir,
        source,
        destination,
        worktree::worktree_dir_of(root_git_dir, id),
    );
}

/// `remove_shared_run` can be run again with more answers.
pub proof fn remove_shared(shared_git_dir: Seq<u8>, root_id: Seq<char>)
    ensures
        forall|talk: Talk|
            steady(
                talk,
                #[trigger] worktree::remove_shared_run(
                    shared_git_dir,
                    root_id,
                    talk,
                ),
                any(),
            ),
        forall|talk: Talk, more: Seq<ReplyView>|
            carries_on(
                talk,
                worktree::remove_shared_run(shared_git_dir, root_id, talk),
                #[trigger] worktree::remove_shared_run(
                    shared_git_dir,
                    root_id,
                    talk.with(more),
                ),
                more,
                any(),
            ),
{
    lemma_one_request();
}

/// `blocked_run` can be run again with more answers, and it changes nothing.
proof fn blocked(git: Seq<u8>, shared_git_dir: Seq<u8>)
    ensures
        forall|talk: Talk|
            steady(
                talk,
                #[trigger] worktree::blocked_run(git, shared_git_dir, talk),
                reading(),
            ),
        forall|talk: Talk, more: Seq<ReplyView>|
            carries_on(
                talk,
                worktree::blocked_run(git, shared_git_dir, talk),
                #[trigger] worktree::blocked_run(git, shared_git_dir, talk.with(more)),
                more,
                reading(),
            ),
{
    lemma_one_request();
}

/// `restorable_run` can be run again with more answers, and it changes nothing.
proof fn restorable(git: Seq<u8>, shared_git_dir: Seq<u8>)
    ensures
        forall|talk: Talk|
            steady(
                talk,
                #[trigger] worktree::restorable_run(git, shared_git_dir, talk),
                reading(),
            ),
        forall|talk: Talk, more: Seq<ReplyView>|
            carries_on(
                talk,
                worktree::restorable_run(git, shared_git_dir, talk),
                #[trigger] worktree::restorable_run(git, shared_git_dir, talk.with(more)),
                more,
                reading(),
            ),
{
    lemma_one_request();
}

/// `validate_restore_run` can be run again with more answers, and it changes nothing.
pub proof fn validate_restore(worktree: Seq<u8>, shared_git_dir: Seq<u8>)
    ensures
        forall|talk: Talk|
            steady(
                talk,
                #[trigger] worktree::validate_restore_run(
                    worktree,
                    shared_git_dir,
                    talk,
                ),
                reading(),
            ),
        forall|talk: Talk, more: Seq<ReplyView>|
            carries_on(
                talk,
                worktree::validate_restore_run(worktree, shared_git_dir, talk),
                #[trigger] worktree::validate_restore_run(
                    worktree,
                    shared_git_dir,
                    talk.with(more),
                ),
                more,
                reading(),
            ),
{
    lemma_one_request();
    blocked(path::child(worktree, ".git"@), shared_git_dir);
    restorable(path::child(worktree, ".git"@), shared_git_dir);
}

/// `remove_empty_parent_run` can be run again with more answers.
pub proof fn remove_empty_parent(shared_git_dir: Seq<u8>)
    ensures
        forall|talk: Talk|
            steady(
                talk,
                #[trigger] worktree::remove_empty_parent_run(
                    shared_git_dir,
                    talk,
                ),
                any(),
            ),
        forall|talk: Talk, more: Seq<ReplyView>|
            carries_on(
                talk,
                worktree::remove_empty_parent_run(shared_git_dir, talk),
                #[trigger] worktree::remove_empty_parent_run(
                    shared_git_dir,
                    talk.with(more),
                ),
                more,
                any(),
            ),
{
    lemma_one_request();
}

/// `settle_inline_run` can be run again with more answers.
pub proof fn settle_inline(git: Seq<u8>, shared_git_dir: Seq<u8>)
    ensures
        forall|talk: Talk|
            steady(
                talk,
                #[trigger] worktree::settle_inline_run(git, shared_git_dir, talk),
                any(),
            ),
        forall|talk: Talk, more: Seq<ReplyView>|
            carries_on(
                talk,
                worktree::settle_inline_run(git, shared_git_dir, talk),
                #[trigger] worktree::settle_inline_run(
                    git,
                    shared_git_dir,
                    talk.with(more),
                ),
                more,
                any(),
            ),
{
    lemma_one_request();
    configure_inline_root(git);
    remove_empty_parent(shared_git_dir);
}

/// `bring_back_run` can be run again with more answers.
proof fn bring_back(git: Seq<u8>, shared_git_dir: Seq<u8>)
    ensures
        forall|talk: Talk|
            steady(
                talk,
                #[trigger] worktree::bring_back_run(git, shared_git_dir, talk),
                any(),
            ),
        forall|talk: Talk, more: Seq<ReplyView>|
            carries_on(
                talk,
                worktree::bring_back_run(git, shared_git_dir, talk),
                #[trigger] worktree::bring_back_run(git, shared_git_dir, talk.with(more)),
                more,
                any(),
            ),
{
    lemma_one_request();
    move_dir(shared_git_dir, git);
    settle_inline(git, shared_git_dir);
    step();
}

/// `take_over_run` can be run again with more answers.
proof fn take_over(git: Seq<u8>, shared_git_dir: Seq<u8>)
    ensures
        forall|talk: Talk|
            steady(
                talk,
                #[trigger] worktree::take_over_run(git, shared_git_dir, talk),
                any(),
            ),
        forall|talk: Talk, more: Seq<ReplyView>|
            carries_on(
                talk,
                worktree::take_over_run(git, shared_git_dir, talk),
                #[trigger] worktree::take_over_run(git, shared_git_dir, talk.with(more)),
                more,
                any(),
            ),
{
    lemma_one_request();
    bring_back(git, shared_git_dir);
    settle_inline(git, shared_git_dir);
}

/// `restore_inline_root_run` can be run again with more answers.
pub proof fn restore_inline_root(worktree: Seq<u8>, shared_git_dir: Seq<u8>)
    ensures
        forall|talk: Talk|
            steady(
                talk,
                #[trigger] worktree::restore_inline_root_run(
                    worktree,
                    shared_git_dir,
                    talk,
                ),
                any(),
            ),
        forall|talk: Talk, more: Seq<ReplyView>|
            carries_on(
                talk,
                worktree::restore_inline_root_run(worktree, shared_git_dir, talk),
                #[trigger] worktree::restore_inline_root_run(
                    worktree,
                    shared_git_dir,
                    talk.with(more),
                ),
                more,
                any(),
            ),
{
    let git = path::child(worktree, ".git"@);
    lemma_one_request();
    validate_restore(worktree, shared_git_dir);
    bring_back(git, shared_git_dir);
    take_over(git, shared_git_dir);
}

/// `ensure_table_column_run` can be run again with more answers.
proof fn ensure_table_column()
    ensures
        forall|talk: Talk, table: Seq<char>, column: Seq<char>, statement: Seq<char>|
            steady(
                talk,
                #[trigger] schema::ensure_table_column_run(
                    table,
                    column,
                    statement,
                    talk,
                ),
                any(),
            ),
        forall|
            talk: Talk,
            more: Seq<ReplyView>,
            table: Seq<char>,
            column: Seq<char>,
            statement: Seq<char>,
        |
            carries_on(
                talk,
                schema::ensure_table_column_run(table, column, statement, talk),
                #[trigger] schema::ensure_table_column_run(
                    table,
                    column,
                    statement,
                    talk.with(more),
                ),
                more,
                any(),
            ),
{
    lemma_one_request();
}

/// `ensure_columns_run` can be run again with more answers.
proof fn ensure_columns(most: nat)
    ensures
        forall|talk: Talk, columns: Seq<ColumnView>|
            columns.len() <= most ==> steady(
                talk,
                #[trigger] schema::ensure_columns_run(columns, talk),
                any(),
            ),
        forall|talk: Talk, more: Seq<ReplyView>, columns: Seq<ColumnView>|
            columns.len() <= most ==> carries_on(
                talk,
                schema::ensure_columns_run(columns, talk),
                #[trigger] schema::ensure_columns_run(columns, talk.with(more)),
                more,
                any(),
            ),
    decreases most,
{
    lemma_one_request();
    ensure_table_column();
    if most > 0 {
        ensure_columns((most - 1) as nat);
    }
    assert forall|talk: Talk, columns: Seq<ColumnView>| columns.len() <= most implies steady(
        talk,
        #[trigger] schema::ensure_columns_run(columns, talk),
        any(),
    ) by {
        if columns.len() > 0 {
            let first = schema::ensure_table_column_run(
                columns[0].table,
                columns[0].name,
                columns[0].statement,
                talk,
            );
            let rest = schema::ensure_columns_run(columns.drop_first(), first.talk);
            assert(adds(first.talk.asked, rest.talk.asked, any()));
        }
    }
    assert forall|talk: Talk, more: Seq<ReplyView>, columns: Seq<ColumnView>|
        columns.len() <= most implies carries_on(
        talk,
        schema::ensure_columns_run(columns, talk),
        #[trigger] schema::ensure_columns_run(columns, talk.with(more)),
        more,
        any(),
    ) by {
        if columns.len() > 0 {
            let first = schema::ensure_table_column_run(
                columns[0].table,
                columns[0].name,
                columns[0].statement,
                talk.with(more),
            );
            let rest = schema::ensure_columns_run(columns.drop_first(), first.talk);
            assert(adds(first.talk.asked, rest.talk.asked, any()));
            let earlier = schema::ensure_table_column_run(
                columns[0].table,
                columns[0].name,
                columns[0].statement,
                talk,
            );
            assert(carries_on(
                earlier.talk,
                schema::ensure_columns_run(columns.drop_first(), earlier.talk),
                schema::ensure_columns_run(columns.drop_first(), earlier.talk.with(more)),
                more,
                any(),
            ));
        }
    }
}

/// `open_run` can be run again with more answers.
pub proof fn open(path: Seq<u8>)
    ensures
        forall|talk: Talk|
            steady(
                talk,
                #[trigger] schema::open_run(path, talk),
                any(),
            ),
        forall|talk: Talk, more: Seq<ReplyView>|
            carries_on(
                talk,
                schema::open_run(path, talk),
                #[trigger] schema::open_run(path, talk.with(more)),
                more,
                any(),
            ),
{
    lemma_one_request();
    ensure_columns(5);
}

} // verus!
