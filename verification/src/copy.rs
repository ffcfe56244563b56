//! Copying a directory with all it holds.
//!
//! A copy is a list of jobs. The first job says what has to be done next, and the answer to that
//! decides which jobs take its place.

use crate::dialogue::{
    refusal_of, EntryKind, Listed, ListedView, Reply, ReplyView, Request, RequestView,
};
use crate::error::{Error, ErrorView};
use crate::path::FsPath;
use vstd::prelude::*;

verus! {

/// One job of a copy: from the first path to the second.
pub enum Job {
    /// Make the directory that the copies go to, and list the one they come from.
    Directory(FsPath, FsPath),
    /// List the directory that the copies come from.
    Entries(FsPath, FsPath),
    Link(FsPath, FsPath),
    File(FsPath, FsPath),
    /// Give up: an entry could not be looked at, or something else went wrong.
    GiveUp(Error),
}

pub enum JobView {
    Directory(Seq<u8>, Seq<u8>),
    Entries(Seq<u8>, Seq<u8>),
    Link(Seq<u8>, Seq<u8>),
    File(Seq<u8>, Seq<u8>),
    GiveUp(ErrorView),
}

impl DeepView for Job {
    type V = JobView;

    open spec fn deep_view(&self) -> JobView {
        match self {
            Job::Directory(from, to) => JobView::Directory(from@, to@),
            Job::Entries(from, to) => JobView::Entries(from@, to@),
            Job::Link(from, to) => JobView::Link(from@, to@),
            Job::File(from, to) => JobView::File(from@, to@),
            Job::GiveUp(error) => JobView::GiveUp(error@),
        }
    }
}

/// What comes next in a copy.
pub enum Turn {
    /// Nothing: it is complete.
    Finished,
    /// Nothing: it cannot go on.
    Stuck(Error),
    /// A request.
    Ask(Request),
}

pub enum TurnView {
    Finished,
    Stuck(ErrorView),
    Ask(RequestView),
}

impl View for Turn {
    type V = TurnView;

    open spec fn view(&self) -> TurnView {
        match self {
            Turn::Finished => TurnView::Finished,
            Turn::Stuck(error) => TurnView::Stuck(error@),
            Turn::Ask(request) => TurnView::Ask(request@),
        }
    }
}

/// The request that a list of jobs begins with.
pub open spec fn turn_of(jobs: Seq<JobView>) -> TurnView {
    if jobs.len() == 0 {
        TurnView::Finished
    } else {
        match jobs[0] {
            JobView::Directory(from, to) => TurnView::Ask(RequestView::CreateDirs(to)),
            JobView::Entries(from, to) => TurnView::Ask(RequestView::ListDir(from)),
            JobView::Link(from, to) => TurnView::Ask(RequestView::CopyLink(from, to)),
            JobView::File(from, to) => TurnView::Ask(RequestView::CopyFile(from, to)),
            JobView::GiveUp(error) => TurnView::Stuck(error),
        }
    }
}

/// The job for one entry of a directory.
pub open spec fn job_for(from: Seq<u8>, to: Seq<u8>, found: ListedView) -> JobView {
    match found {
        ListedView::Broken(failure) => JobView::GiveUp(ErrorView::Io(failure)),
        ListedView::Entry(name, kind) => {
            let source = crate::path::joined(from, name);
            let destination = crate::path::joined(to, name);
            match kind {
                EntryKind::Directory => JobView::Directory(source, destination),
                EntryKind::Symlink => JobView::Link(source, destination),
                EntryKind::Other => JobView::File(source, destination),
            }
        },
    }
}

/// The jobs for all entries of a directory.
pub open spec fn jobs_for(from: Seq<u8>, to: Seq<u8>, found: Seq<ListedView>) -> Seq<JobView> {
    found.map_values(|one: ListedView| job_for(from, to, one))
}

/// The jobs that are left once the first one has its answer, or the error with which the copy
/// ends.
pub open spec fn jobs_after(jobs: Seq<JobView>, reply: ReplyView) -> Result<
    Seq<JobView>,
    ErrorView,
> {
    if jobs.len() == 0 {
        Err(ErrorView::Unexpected)
    } else {
        let rest = jobs.drop_first();
        match (jobs[0], reply) {
            (JobView::Directory(from, to), ReplyView::Done) => Ok(
                seq![JobView::Entries(from, to)] + rest,
            ),
            (JobView::Entries(from, to), ReplyView::Listing(found)) => Ok(
                jobs_for(from, to, found) + rest,
            ),
            (JobView::Link(_, _), ReplyView::Done) => Ok(rest),
            (JobView::File(_, _), ReplyView::Done) => Ok(rest),
            (JobView::GiveUp(error), _) => Err(error),
            (_, reply) => Err(crate::dialogue::refusal(reply)),
        }
    }
}

/// A copy under way.
pub struct CopyTree {
    jobs: Vec<Job>,
}

impl View for CopyTree {
    type V = Seq<JobView>;

    /// The jobs, the next one first. They are kept the other way round.
    closed spec fn view(&self) -> Seq<JobView> {
        self.jobs.deep_view().reverse()
    }
}

fn job_of(from: &FsPath, to: &FsPath, found: &Listed) -> (job: Job)
    ensures
        job.deep_view() == job_for(from@, to@, found.deep_view()),
{
    match found {
        Listed::Broken(failure) => Job::GiveUp(Error::Io(failure.clone())),
        Listed::Entry(name, kind) => {
            let source = from.join_bytes(name);
            let destination = to.join_bytes(name);
            match kind {
                EntryKind::Directory => Job::Directory(source, destination),
                EntryKind::Symlink => Job::Link(source, destination),
                EntryKind::Other => Job::File(source, destination),
            }
        },
    }
}

/// Begins the copy of the directory `source` to `destination`.
pub fn copy_dir_all(source: &FsPath, destination: &FsPath) -> (copy: CopyTree)
    ensures
        copy@ == seq![JobView::Directory(source@, destination@)],
{
    let copy = CopyTree { jobs: vec![Job::Directory(source.clone(), destination.clone())] };
    assert(copy@ =~= seq![JobView::Directory(source@, destination@)]);
    copy
}

impl CopyTree {
    /// What has to be done next.
    pub fn turn(&self) -> (turn: Turn)
        ensures
            turn@ == turn_of(self@),
    {
        if self.jobs.len() == 0 {
            return Turn::Finished;
        }
        let last = self.jobs.len() - 1;
        assert(self@[0] == self.jobs@[last as int].deep_view());
        match &self.jobs[last] {
            Job::Directory(_, to) => Turn::Ask(Request::CreateDirs(to.clone())),
            Job::Entries(from, _) => Turn::Ask(Request::ListDir(from.clone())),
            Job::Link(from, to) => Turn::Ask(Request::CopyLink(from.clone(), to.clone())),
            Job::File(from, to) => Turn::Ask(Request::CopyFile(from.clone(), to.clone())),
            Job::GiveUp(error) => Turn::Stuck(error.clone()),
        }
    }

    /// Takes the answer to what had to be done. An answer that is no success ends the copy: of all
    /// that was left to do nothing is asked for any more, and the copy stays stuck on the error.
    pub fn answer(&mut self, reply: &Reply) -> (result: Result<(), Error>)
        ensures
            match result {
                Ok(_) => jobs_after(old(self)@, reply@) == Ok::<Seq<JobView>, ErrorView>(
                    final(self)@,
                ),
                Err(error) => jobs_after(old(self)@, reply@) == Err::<Seq<JobView>, ErrorView>(
                    error@,
                ) && final(self)@ == seq![JobView::GiveUp(error@)],
            },
    {
        let job = match self.jobs.pop() {
            Some(job) => job,
            None => return Err(self.give_up(Error::Unexpected)),
        };
        let ghost before = old(self)@;
        proof {
            assert(before[0] == job.deep_view());
            assert(self@ =~= before.drop_first());
        }
        match (job, reply) {
            (Job::Directory(from, to), Reply::Done) => {
                self.jobs.push(Job::Entries(from, to));
                assert(self@ =~= seq![JobView::Entries(from@, to@)] + before.drop_first());
                Ok(())
            },
            (Job::Entries(from, to), Reply::Listing(found)) => {
                let ghost all = jobs_for(from@, to@, found.deep_view());
                let mut i: usize = found.len();
                assert(all.skip(i as int) =~= Seq::empty());
                assert(self@ =~= all.skip(i as int) + before.drop_first());
                while i > 0
                    invariant
                        i <= found@.len(),
                        all == jobs_for(from@, to@, found.deep_view()),
                        self@ == all.skip(i as int) + before.drop_first(),
                    decreases i,
                {
                    let ghost then_jobs = self@;
                    i -= 1;
                    self.jobs.push(job_of(&from, &to, &found[i]));
                    proof {
                        assert(self@ =~= seq![all[i as int]] + then_jobs);
                        assert(all.skip(i as int) =~= seq![all[i as int]] + all.skip(i + 1));
                        assert(self@ =~= all.skip(i as int) + before.drop_first());
                    }
                }
                assert(all.skip(0) =~= all);
                Ok(())
            },
            (Job::Link(_, _), Reply::Done) => Ok(()),
            (Job::File(_, _), Reply::Done) => Ok(()),
            (Job::GiveUp(error), _) => Err(self.give_up(error)),
            (_, reply) => Err(self.give_up(refusal_of(reply))),
        }
    }

    /// Drops all that is left to do, for the sake of an error.
    fn give_up(&mut self, error: Error) -> (result: Error)
        ensures
            result@ == error@,
            final(self)@ == seq![JobView::GiveUp(error@)],
    {
        self.jobs = vec![Job::GiveUp(error.clone())];
        assert(self@ =~= seq![JobView::GiveUp(error@)]);
        error
    }
}

/// What stands in a file system below some path.
pub enum Tree {
    File,
    Link,
    /// A directory: the names in it, each with what stands there.
    Directory(Seq<(Seq<u8>, Tree)>),
}

impl Tree {
    pub open spec fn kind(self) -> EntryKind {
        match self {
            Tree::File => EntryKind::Other,
            Tree::Link => EntryKind::Symlink,
            Tree::Directory(_) => EntryKind::Directory,
        }
    }
}

/// How a directory is listed.
pub open spec fn listing(entries: Seq<(Seq<u8>, Tree)>) -> Seq<ListedView> {
    entries.map_values(|entry: (Seq<u8>, Tree)| ListedView::Entry(entry.0, entry.1.kind()))
}

/// The requests and answers by which a tree is copied: every file and every link is copied from
/// its place below `from` to the same place below `to`, and every directory is made there before
/// what it holds.
pub open spec fn script(tree: Tree, from: Seq<u8>, to: Seq<u8>) -> Seq<(RequestView, ReplyView)>
    decreases tree,
{
    match tree {
        Tree::File => seq![(RequestView::CopyFile(from, to), ReplyView::Done)],
        Tree::Link => seq![(RequestView::CopyLink(from, to), ReplyView::Done)],
        Tree::Directory(entries) => seq![
            (RequestView::CreateDirs(to), ReplyView::Done),
            (RequestView::ListDir(from), ReplyView::Listing(listing(entries))),
        ] + entries_script(entries, from, to),
    }
}

/// The requests and answers for the entries of a directory, one after the other.
pub open spec fn entries_script(
    entries: Seq<(Seq<u8>, Tree)>,
    from: Seq<u8>,
    to: Seq<u8>,
) -> Seq<(RequestView, ReplyView)>
    decreases entries,
{
    if entries.len() == 0 {
        Seq::empty()
    } else {
        let (name, tree) = entries[0];
        script(tree, crate::path::joined(from, name), crate::path::joined(to, name))
            + entries_script(entries.drop_first(), from, to)
    }
}

/// The jobs left after a copy made the requests of a script and got its answers. Nothing where it
/// made another request or could not go on.
pub open spec fn played(jobs: Seq<JobView>, script: Seq<(RequestView, ReplyView)>) -> Option<
    Seq<JobView>,
>
    decreases script.len(),
{
    if script.len() == 0 {
        Some(jobs)
    } else if turn_of(jobs) != TurnView::Ask(script[0].0) {
        None
    } else {
        match jobs_after(jobs, script[0].1) {
            Err(_) => None,
            Ok(next) => played(next, script.drop_first()),
        }
    }
}

proof fn lemma_played_tree(
    tree: Tree,
    name_in: Seq<u8>,
    from: Seq<u8>,
    to: Seq<u8>,
    rest: Seq<JobView>,
    more: Seq<(RequestView, ReplyView)>,
)
    ensures
        played(
            seq![job_for(from, to, ListedView::Entry(name_in, tree.kind()))] + rest,
            script(
                tree,
                crate::path::joined(from, name_in),
                crate::path::joined(to, name_in),
            ) + more,
        ) == played(rest, more),
    decreases tree, 1int,
{
    let source = crate::path::joined(from, name_in);
    let destination = crate::path::joined(to, name_in);
    let job = job_for(from, to, ListedView::Entry(name_in, tree.kind()));
    let jobs = seq![job] + rest;
    let whole = script(tree, source, destination) + more;
    assert(jobs.drop_first() =~= rest);
    match tree {
        Tree::Directory(entries) => {
            lemma_played_directory(entries, source, destination, rest, more);
        },
        _ => {
            assert(whole.drop_first() =~= more);
        },
    }
}

proof fn lemma_played_directory(
    entries: Seq<(Seq<u8>, Tree)>,
    from: Seq<u8>,
    to: Seq<u8>,
    rest: Seq<JobView>,
    more: Seq<(RequestView, ReplyView)>,
)
    ensures
        played(
            seq![JobView::Directory(from, to)] + rest,
            script(Tree::Directory(entries), from, to) + more,
        ) == played(rest, more),
    decreases entries, 2int,
{
    let jobs = seq![JobView::Directory(from, to)] + rest;
    let whole = script(Tree::Directory(entries), from, to) + more;
    let after_make = seq![JobView::Entries(from, to)] + rest;
    let after_list = jobs_for(from, to, listing(entries)) + rest;
    assert(jobs.drop_first() =~= rest);
    assert(after_make.drop_first() =~= rest);
    assert(whole.drop_first().drop_first() =~= entries_script(entries, from, to) + more);
    assert(whole.drop_first()[0] == (
        RequestView::ListDir(from),
        ReplyView::Listing(listing(entries)),
    ));
    reveal_with_fuel(played, 3);
    lemma_played_entries(entries, from, to, rest, more);
}

proof fn lemma_played_entries(
    entries: Seq<(Seq<u8>, Tree)>,
    from: Seq<u8>,
    to: Seq<u8>,
    rest: Seq<JobView>,
    more: Seq<(RequestView, ReplyView)>,
)
    ensures
        played(
            jobs_for(from, to, listing(entries)) + rest,
            entries_script(entries, from, to) + more,
        ) == played(rest, more),
    decreases entries, 1int,
{
    let jobs = jobs_for(from, to, listing(entries));
    if entries.len() == 0 {
        assert(jobs + rest =~= rest);
        assert(entries_script(entries, from, to) + more =~= more);
    } else {
        let (name, tree) = entries[0];
        let others = entries.drop_first();
        let other_jobs = jobs_for(from, to, listing(others));
        let first = script(tree, crate::path::joined(from, name), crate::path::joined(to, name));
        let other_script = entries_script(others, from, to);
        assert(jobs + rest =~= seq![
            job_for(from, to, ListedView::Entry(name, tree.kind())),
        ] + (other_jobs + rest));
        assert(entries_script(entries, from, to) + more =~= first + (other_script + more));
        assert(decreases_to!(entries => entries[0]));
        lemma_played_tree(tree, name, from, to, other_jobs + rest, other_script + more);
        lemma_played_entries(others, from, to, rest, more);
    }
}

/// A copy that has ended with an error stays ended: it asks for nothing more, and whatever answer it
/// is given, the error is the same.
pub proof fn ended_copy_stays_ended(jobs: Seq<JobView>, reply: ReplyView, later: ReplyView)
    requires
        jobs_after(jobs, reply) is Err,
    ensures
        ({
            let error = jobs_after(jobs, reply)->Err_0;
            let ended = seq![JobView::GiveUp(error)];
            &&& turn_of(ended) == TurnView::Stuck(error)
            &&& jobs_after(ended, later) == Err::<Seq<JobView>, ErrorView>(error)
        }),
{
}

/// Where every request succeeds and every listing is true, the copy of a directory makes exactly
/// the requests of its script and is then complete.
pub proof fn copy_is_complete(entries: Seq<(Seq<u8>, Tree)>, from: Seq<u8>, to: Seq<u8>)
    ensures
        played(
            seq![JobView::Directory(from, to)],
            script(Tree::Directory(entries), from, to),
        ) == Some(Seq::<JobView>::empty()),
{
    lemma_played_directory(entries, from, to, Seq::empty(), Seq::empty());
    assert(seq![JobView::Directory(from, to)] + Seq::<JobView>::empty() =~= seq![
        JobView::Directory(from, to),
    ]);
    assert(script(Tree::Directory(entries), from, to) + Seq::<(RequestView, ReplyView)>::empty()
        =~= script(Tree::Directory(entries), from, to));
}


/// A copy goes on while its requests succeed. One that the operating system refuses ends it with what
/// was said, and so does an entry that could not be looked at, once its turn comes.
pub proof fn refused_copy_ends_with_what_was_said(
    jobs: Seq<JobView>,
    failure: crate::error::FailureView,
    from: Seq<u8>,
    to: Seq<u8>,
    before: Seq<ListedView>,
    behind: Seq<ListedView>,
)
    requires
        turn_of(jobs) is Ask,
    ensures
        jobs_after(jobs, ReplyView::Failed(failure)) == Err::<Seq<JobView>, ErrorView>(
            ErrorView::Io(failure),
        ),
        ({
            let found = before + seq![ListedView::Broken(failure)] + behind;
            let next = jobs_after(
                seq![JobView::Entries(from, to)],
                ReplyView::Listing(found),
            );
            &&& next is Ok
            &&& next->Ok_0.len() == found.len()
            &&& turn_of(next->Ok_0.skip(before.len() as int)) == TurnView::Stuck(
                ErrorView::Io(failure),
            )
        }),
{
    let found = before + seq![ListedView::Broken(failure)] + behind;
    let jobs = seq![JobView::Entries(from, to)];
    assert(jobs_for(from, to, found) + jobs.drop_first() =~= jobs_for(from, to, found));
    assert(found[before.len() as int] == ListedView::Broken(failure));
}

} // verus!
