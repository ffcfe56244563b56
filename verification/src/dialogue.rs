//! How the library reaches the outside world.
//!
//! No operation touches the file system, Git or the database by itself. An operation is handed a
//! [`Session`] and puts its requests to it, one after the other. As long as the session holds
//! answers, the operation goes on; at the first request that has none yet it stops and returns
//! `None`. Whoever runs the operation then performs that request, adds the answer, rewinds the
//! session and calls the operation again, until it returns a result.

use crate::error::{Error, ErrorView, Failure, FailureView};
use crate::path::FsPath;
use vstd::prelude::*;

verus! {

/// What stands at a path, symbolic links not followed.
#[derive(Clone, Copy, Debug, PartialEq, Eq, Structural)]
pub enum EntryKind {
    Directory,
    Symlink,
    Other,
}

impl DeepView for EntryKind {
    type V = EntryKind;

    open spec fn deep_view(&self) -> EntryKind {
        *self
    }
}

/// Where a Git command runs.
#[derive(Debug, PartialEq, Eq)]
pub enum Place {
    /// In a working tree: `git -C <path>`.
    WorkTree(FsPath),
    /// On a repository: `git --git-dir <path>`.
    GitDir(FsPath),
}

pub enum PlaceView {
    WorkTree(Seq<u8>),
    GitDir(Seq<u8>),
}

impl View for Place {
    type V = PlaceView;

    open spec fn view(&self) -> PlaceView {
        match self {
            Place::WorkTree(path) => PlaceView::WorkTree(path@),
            Place::GitDir(path) => PlaceView::GitDir(path@),
        }
    }
}

/// One thing to be done outside.
#[derive(Debug, PartialEq, Eq)]
pub enum Request {
    /// Does anything stand at the path, links followed?
    Exists(FsPath),
    /// Is there a directory at the path, links followed?
    IsDir(FsPath),
    /// What stands at the path, links not followed?
    Inspect(FsPath),
    /// The contents of a text file.
    ReadText(FsPath),
    /// Write a file, in the place of what it held.
    WriteText(FsPath, String),
    /// Make a directory and those above it that are missing.
    CreateDirs(FsPath),
    /// Move the first path to the second.
    Rename(FsPath, FsPath),
    RemoveFile(FsPath),
    /// Remove an empty directory.
    RemoveDir(FsPath),
    /// Remove a directory with all it holds.
    RemoveTree(FsPath),
    /// Copy one file.
    CopyFile(FsPath, FsPath),
    /// Copy a directory with all it holds.
    CopyTree(FsPath, FsPath),
    /// Make a link that leads where another leads.
    CopyLink(FsPath, FsPath),
    /// What a directory holds.
    ListDir(FsPath),
    /// The path with all links resolved.
    Canonicalize(FsPath),
    /// Run Git and collect what it prints.
    Git(Place, Vec<String>),
    /// Run Git and let it print.
    GitVisibly(Place, Vec<String>),
    /// The commit that `HEAD` of the repository at the path leads to, where it can be found
    /// without running Git.
    HeadCommit(FsPath),
    OpenDatabase(FsPath),
    /// Execute several statements.
    ExecuteBatch(String),
    /// Execute one statement.
    Execute(String),
    /// The names of the columns of a table.
    TableColumns(String),
}

pub enum RequestView {
    Exists(Seq<u8>),
    IsDir(Seq<u8>),
    Inspect(Seq<u8>),
    ReadText(Seq<u8>),
    WriteText(Seq<u8>, Seq<char>),
    CreateDirs(Seq<u8>),
    Rename(Seq<u8>, Seq<u8>),
    RemoveFile(Seq<u8>),
    RemoveDir(Seq<u8>),
    RemoveTree(Seq<u8>),
    CopyFile(Seq<u8>, Seq<u8>),
    CopyTree(Seq<u8>, Seq<u8>),
    CopyLink(Seq<u8>, Seq<u8>),
    ListDir(Seq<u8>),
    Canonicalize(Seq<u8>),
    Git(PlaceView, Seq<Seq<char>>),
    GitVisibly(PlaceView, Seq<Seq<char>>),
    HeadCommit(Seq<u8>),
    OpenDatabase(Seq<u8>),
    ExecuteBatch(Seq<char>),
    Execute(Seq<char>),
    TableColumns(Seq<char>),
}

impl View for Request {
    type V = RequestView;

    open spec fn view(&self) -> RequestView {
        match self {
            Request::Exists(path) => RequestView::Exists(path@),
            Request::IsDir(path) => RequestView::IsDir(path@),
            Request::Inspect(path) => RequestView::Inspect(path@),
            Request::ReadText(path) => RequestView::ReadText(path@),
            Request::WriteText(path, text) => RequestView::WriteText(path@, text@),
            Request::CreateDirs(path) => RequestView::CreateDirs(path@),
            Request::Rename(from, to) => RequestView::Rename(from@, to@),
            Request::RemoveFile(path) => RequestView::RemoveFile(path@),
            Request::RemoveDir(path) => RequestView::RemoveDir(path@),
            Request::RemoveTree(path) => RequestView::RemoveTree(path@),
            Request::CopyFile(from, to) => RequestView::CopyFile(from@, to@),
            Request::CopyTree(from, to) => RequestView::CopyTree(from@, to@),
            Request::CopyLink(from, to) => RequestView::CopyLink(from@, to@),
            Request::ListDir(path) => RequestView::ListDir(path@),
            Request::Canonicalize(path) => RequestView::Canonicalize(path@),
            Request::Git(place, args) => RequestView::Git(place@, args.deep_view()),
            Request::GitVisibly(place, args) => RequestView::GitVisibly(place@, args.deep_view()),
            Request::HeadCommit(path) => RequestView::HeadCommit(path@),
            Request::OpenDatabase(path) => RequestView::OpenDatabase(path@),
            Request::ExecuteBatch(text) => RequestView::ExecuteBatch(text@),
            Request::Execute(text) => RequestView::Execute(text@),
            Request::TableColumns(table) => RequestView::TableColumns(table@),
        }
    }
}

/// What a command printed and whether it ended well.
pub struct Output {
    pub success: bool,
    pub stdout: Vec<u8>,
    pub stderr: Vec<u8>,
}

pub struct OutputView {
    pub success: bool,
    pub stdout: Seq<u8>,
    pub stderr: Seq<u8>,
}

impl View for Output {
    type V = OutputView;

    open spec fn view(&self) -> OutputView {
        OutputView { success: self.success, stdout: self.stdout@, stderr: self.stderr@ }
    }
}

impl DeepView for Output {
    type V = OutputView;

    open spec fn deep_view(&self) -> OutputView {
        self@
    }
}

impl Clone for Output {
    fn clone(&self) -> (copy: Output)
        ensures
            copy@ == self@,
    {
        Output {
            success: self.success,
            stdout: self.stdout.clone(),
            stderr: self.stderr.clone(),
        }
    }
}

/// A copy of a list of texts.
fn copy_texts(texts: &Vec<String>) -> (copy: Vec<String>)
    ensures
        copy.deep_view() == texts.deep_view(),
{
    let mut copy: Vec<String> = Vec::new();
    let mut k: usize = 0;
    while k < texts.len()
        invariant
            k <= texts@.len(),
            copy@.len() == k,
            forall|j: int| 0 <= j < k ==> #[trigger] copy@[j]@ == texts@[j]@,
        decreases texts@.len() - k,
    {
        copy.push(texts[k].clone());
        k += 1;
    }
    assert(copy.deep_view() =~= texts.deep_view());
    copy
}

/// One thing found while a directory was listed.
pub enum Listed {
    /// An entry, by its name.
    Entry(Vec<u8>, EntryKind),
    /// An entry that could not be looked at.
    Broken(Failure),
}

pub enum ListedView {
    Entry(Seq<u8>, EntryKind),
    Broken(FailureView),
}

impl DeepView for Listed {
    type V = ListedView;

    open spec fn deep_view(&self) -> ListedView {
        match self {
            Listed::Entry(name, kind) => ListedView::Entry(name@, *kind),
            Listed::Broken(failure) => ListedView::Broken(failure@),
        }
    }
}

/// The answer to a request.
pub enum Reply {
    /// It was done.
    Done,
    /// The operating system refused.
    Failed(Failure),
    /// The database refused.
    Rejected(String),
    Flag(bool),
    Kind(EntryKind),
    Text(String),
    Location(FsPath),
    Printed(Output),
    Commit(Option<String>),
    Names(Vec<String>),
    Listing(Vec<Listed>),
}

pub enum ReplyView {
    Done,
    Failed(FailureView),
    Rejected(Seq<char>),
    Flag(bool),
    Kind(EntryKind),
    Text(Seq<char>),
    Location(Seq<u8>),
    Printed(OutputView),
    Commit(Option<Seq<char>>),
    Names(Seq<Seq<char>>),
    Listing(Seq<ListedView>),
}

impl View for Reply {
    type V = ReplyView;

    open spec fn view(&self) -> ReplyView {
        match self {
            Reply::Done => ReplyView::Done,
            Reply::Failed(failure) => ReplyView::Failed(failure@),
            Reply::Rejected(message) => ReplyView::Rejected(message@),
            Reply::Flag(flag) => ReplyView::Flag(*flag),
            Reply::Kind(kind) => ReplyView::Kind(*kind),
            Reply::Text(text) => ReplyView::Text(text@),
            Reply::Location(path) => ReplyView::Location(path@),
            Reply::Printed(output) => ReplyView::Printed(output@),
            Reply::Commit(commit) => ReplyView::Commit(commit.deep_view()),
            Reply::Names(names) => ReplyView::Names(names.deep_view()),
            Reply::Listing(found) => ReplyView::Listing(found.deep_view()),
        }
    }
}

/// How far a conversation has come.
pub struct Talk {
    /// All the answers there are.
    pub answers: Seq<ReplyView>,
    /// The requests put so far.
    pub asked: Seq<RequestView>,
    /// The answers not used up yet.
    pub rest: Seq<ReplyView>,
}

/// What an operation does with a conversation: how far it carries it, and its result. Without a
/// result, it waits for the answer to the last request.
pub struct Run<T> {
    pub talk: Talk,
    pub out: Option<Result<T, ErrorView>>,
}

/// What an answer says that is not the one asked for.
pub open spec fn refusal(reply: ReplyView) -> ErrorView {
    match reply {
        ReplyView::Failed(failure) => ErrorView::Io(failure),
        ReplyView::Rejected(message) => ErrorView::Database(message),
        _ => ErrorView::Unexpected,
    }
}

impl<A> Run<A> {
    /// One operation after another: the second goes on with the value and the conversation of
    /// the first, unless that failed or waits.
    pub open spec fn and_then<B>(self, second: spec_fn(A, Talk) -> Run<B>) -> Run<B> {
        match self.out {
            None => self.talk.waiting(),
            Some(Err(error)) => self.talk.ready(Err(error)),
            Some(Ok(value)) => second(value, self.talk),
        }
    }

    /// The operation with its outcome reduced to whether it succeeded.
    pub open spec fn succeeded(self) -> Run<bool> {
        match self.out {
            None => self.talk.waiting(),
            Some(result) => self.talk.ready(Ok(result is Ok)),
        }
    }
}

impl Talk {
    /// The conversation after one more request.
    pub open spec fn after(self, request: RequestView) -> Talk {
        Talk {
            answers: self.answers,
            asked: self.asked.push(request),
            rest: if self.rest.len() > 0 { self.rest.drop_first() } else { self.rest },
        }
    }

    /// The answer that the next request gets.
    pub open spec fn next_reply(self) -> Option<ReplyView> {
        if self.rest.len() > 0 {
            Some(self.rest[0])
        } else {
            None
        }
    }

    pub open spec fn waiting<T>(self) -> Run<T> {
        Run { talk: self, out: None }
    }

    pub open spec fn ready<T>(self, result: Result<T, ErrorView>) -> Run<T> {
        Run { talk: self, out: Some(result) }
    }

    /// The run that ended here with what an operation returned.
    pub open spec fn ended<T: DeepView>(self, result: Option<Result<T, Error>>) -> Run<T::V> {
        match result {
            None => self.waiting(),
            Some(Ok(value)) => self.ready(Ok(value.deep_view())),
            Some(Err(error)) => self.ready(Err(error@)),
        }
    }

    /// One request that is answered by its having been done.
    pub open spec fn perform(self, request: RequestView) -> Run<()> {
        match self.next_reply() {
            None => self.after(request).waiting(),
            Some(ReplyView::Done) => self.after(request).ready(Ok(())),
            Some(reply) => self.after(request).ready(Err(refusal(reply))),
        }
    }

    /// One request that is made for its effect, whether it succeeds or not.
    pub open spec fn attempt(self, request: RequestView) -> Run<()> {
        match self.next_reply() {
            None => self.after(request).waiting(),
            Some(_) => self.after(request).ready(Ok(())),
        }
    }

    /// One question answered by yes or no; any other answer counts as no.
    pub open spec fn ask_flag(self, request: RequestView) -> Run<bool> {
        match self.next_reply() {
            None => self.after(request).waiting(),
            Some(reply) => self.after(request).ready(Ok(reply == ReplyView::Flag(true))),
        }
    }

    /// The question what stands at a path.
    pub open spec fn ask_kind(self, request: RequestView) -> Run<EntryKind> {
        match self.next_reply() {
            None => self.after(request).waiting(),
            Some(ReplyView::Kind(kind)) => self.after(request).ready(Ok(kind)),
            Some(reply) => self.after(request).ready(Err(refusal(reply))),
        }
    }

    /// One request for a text.
    pub open spec fn ask_text(self, request: RequestView) -> Run<Seq<char>> {
        match self.next_reply() {
            None => self.after(request).waiting(),
            Some(ReplyView::Text(text)) => self.after(request).ready(Ok(text)),
            Some(reply) => self.after(request).ready(Err(refusal(reply))),
        }
    }

    /// One request for a path.
    pub open spec fn ask_location(self, request: RequestView) -> Run<Seq<u8>> {
        match self.next_reply() {
            None => self.after(request).waiting(),
            Some(ReplyView::Location(path)) => self.after(request).ready(Ok(path)),
            Some(reply) => self.after(request).ready(Err(refusal(reply))),
        }
    }

    /// One command to be run.
    pub open spec fn ask_output(self, request: RequestView) -> Run<OutputView> {
        match self.next_reply() {
            None => self.after(request).waiting(),
            Some(ReplyView::Printed(output)) => self.after(request).ready(Ok(output)),
            Some(reply) => self.after(request).ready(Err(refusal(reply))),
        }
    }

    /// One request for a list of names.
    pub open spec fn ask_names(self, request: RequestView) -> Run<Seq<Seq<char>>> {
        match self.next_reply() {
            None => self.after(request).waiting(),
            Some(ReplyView::Names(names)) => self.after(request).ready(Ok(names)),
            Some(reply) => self.after(request).ready(Err(refusal(reply))),
        }
    }

    /// The question for a commit. Any answer that holds none says that there is none.
    pub open spec fn ask_commit(self, request: RequestView) -> Run<Option<Seq<char>>> {
        match self.next_reply() {
            None => self.after(request).waiting(),
            Some(ReplyView::Commit(commit)) => self.after(request).ready(Ok(commit)),
            Some(_) => self.after(request).ready(Ok(None)),
        }
    }
}

/// The error for an answer that is not the one asked for.
pub fn refusal_of(reply: &Reply) -> (error: Error)
    ensures
        error@ == refusal(reply@),
{
    match reply {
        Reply::Failed(failure) => Error::Io(failure.clone()),
        Reply::Rejected(message) => Error::Database(message.clone()),
        _ => Error::Unexpected,
    }
}

/// A conversation with the outside world.
pub struct Session {
    replies: Vec<Reply>,
    used: usize,
    asked: Vec<Request>,
}

impl View for Session {
    type V = Talk;

    closed spec fn view(&self) -> Talk {
        let answers = self.replies@.map_values(|reply: Reply| reply@);
        Talk {
            answers,
            asked: self.asked@.map_values(|request: Request| request@),
            rest: if self.used <= answers.len() {
                answers.skip(self.used as int)
            } else {
                Seq::empty()
            },
        }
    }
}

impl Session {
    /// A conversation that has not begun.
    pub fn new() -> (session: Session)
        ensures
            session@ == (Talk { answers: Seq::empty(), asked: Seq::empty(), rest: Seq::empty() }),
    {
        let session = Session { replies: Vec::new(), used: 0, asked: Vec::new() };
        proof {
            assert(session@.answers =~= Seq::empty());
            assert(session@.asked =~= Seq::empty());
            assert(session@.rest =~= Seq::empty());
        }
        session
    }

    /// Goes back to the start, with all the answers kept.
    pub fn rewind(&mut self)
        ensures
            final(self)@ == (Talk {
                answers: old(self)@.answers,
                asked: Seq::empty(),
                rest: old(self)@.answers,
            }),
    {
        self.used = 0;
        self.asked = Vec::new();
        proof {
            assert(self@.asked =~= Seq::empty());
            assert(self@.rest =~= self@.answers);
        }
    }

    /// Adds an answer behind all the others and goes back to the start.
    pub fn answer(&mut self, reply: Reply)
        ensures
            final(self)@ == (Talk {
                answers: old(self)@.answers.push(reply@),
                asked: Seq::empty(),
                rest: old(self)@.answers.push(reply@),
            }),
    {
        self.replies.push(reply);
        self.rewind();
        assert(self@.answers =~= old(self)@.answers.push(reply@));
    }

    /// The last request put.
    pub fn last_request(&self) -> (request: Option<&Request>)
        ensures
            request is Some <==> self@.asked.len() > 0,
            request matches Some(r) ==> r@ == self@.asked.last(),
    {
        if self.asked.len() > 0 {
            Some(&self.asked[self.asked.len() - 1])
        } else {
            None
        }
    }

    /// How many requests were put since the start.
    pub fn request_count(&self) -> (count: usize)
        ensures
            count == self@.asked.len(),
    {
        self.asked.len()
    }

    /// The request with the given number, counted from zero.
    pub fn request(&self, number: usize) -> (request: &Request)
        requires
            number < self@.asked.len(),
        ensures
            request@ == self@.asked[number as int],
    {
        &self.asked[number]
    }

    /// Puts a request. Gives the answer, where there is one.
    fn put(&mut self, request: Request) -> (reply: Option<&Reply>)
        ensures
            final(self)@ == old(self)@.after(request@),
            reply is Some <==> old(self)@.next_reply() is Some,
            reply matches Some(r) ==> Some(r@) == old(self)@.next_reply(),
    {
        self.asked.push(request);
        assert(self.asked@.map_values(|request: Request| request@) =~= old(self)@.asked.push(
            request@,
        ));
        if self.used < self.replies.len() {
            let at = self.used;
            self.used = at + 1;
            proof {
                assert(self@.rest =~= old(self)@.rest.drop_first());
                assert(self@.answers =~= old(self)@.answers);
                assert(old(self)@.rest[0] == self.replies@[at as int]@);
            }
            Some(&self.replies[at])
        } else {
            assert(self@.rest =~= old(self)@.rest);
            None
        }
    }

    /// Puts a request that is answered by its having been done.
    pub(crate) fn perform(&mut self, request: Request) -> (result: Option<Result<(), Error>>)
        ensures
            final(self)@.ended(result) == old(self)@.perform(request@),
    {
        match self.put(request)? {
            Reply::Done => Some(Ok(())),
            other => Some(Err(refusal_of(other))),
        }
    }

    /// Puts a request for its effect, whether it succeeds or not.
    pub(crate) fn attempt(&mut self, request: Request) -> (result: Option<()>)
        ensures
            final(self)@ == old(self)@.attempt(request@).talk,
            result is Some <==> old(self)@.attempt(request@).out is Some,
    {
        let _ = self.put(request)?;
        Some(())
    }

    /// Puts a question that is answered by yes or no.
    pub(crate) fn ask_flag(&mut self, request: Request) -> (result: Option<bool>)
        ensures
            final(self)@ == old(self)@.ask_flag(request@).talk,
            result is Some <==> old(self)@.ask_flag(request@).out is Some,
            result matches Some(flag) ==> old(self)@.ask_flag(request@).out == Some(
                Ok::<bool, ErrorView>(flag),
            ),
    {
        match self.put(request)? {
            Reply::Flag(flag) => Some(*flag),
            _ => Some(false),
        }
    }

    /// Puts the question what stands at a path.
    pub(crate) fn ask_kind(&mut self, request: Request) -> (result: Option<
        Result<EntryKind, Error>,
    >)
        ensures
            final(self)@.ended(result) == old(self)@.ask_kind(request@),
    {
        match self.put(request)? {
            Reply::Kind(kind) => Some(Ok(*kind)),
            other => Some(Err(refusal_of(other))),
        }
    }

    /// Puts a request for a text.
    pub(crate) fn ask_text(&mut self, request: Request) -> (result: Option<Result<String, Error>>)
        ensures
            final(self)@.ended(result) == old(self)@.ask_text(request@),
    {
        match self.put(request)? {
            Reply::Text(text) => Some(Ok(text.clone())),
            other => Some(Err(refusal_of(other))),
        }
    }

    /// Puts a request for a path.
    pub(crate) fn ask_location(&mut self, request: Request) -> (result: Option<
        Result<FsPath, Error>,
    >)
        ensures
            final(self)@.ended(result) == old(self)@.ask_location(request@),
    {
        match self.put(request)? {
            Reply::Location(path) => Some(Ok(path.clone())),
            other => Some(Err(refusal_of(other))),
        }
    }

    /// Puts a command to be run.
    pub(crate) fn ask_output(&mut self, request: Request) -> (result: Option<Result<Output, Error>>)
        ensures
            final(self)@.ended(result) == old(self)@.ask_output(request@),
    {
        match self.put(request)? {
            Reply::Printed(output) => Some(Ok(output.clone())),
            other => Some(Err(refusal_of(other))),
        }
    }

    /// Puts a request for a list of names.
    pub(crate) fn ask_names(&mut self, request: Request) -> (result: Option<
        Result<Vec<String>, Error>,
    >)
        ensures
            final(self)@.ended(result) == old(self)@.ask_names(request@),
    {
        match self.put(request)? {
            Reply::Names(names) => Some(Ok(copy_texts(names))),
            other => Some(Err(refusal_of(other))),
        }
    }

    /// Puts the question for a commit.
    pub(crate) fn ask_commit(&mut self, request: Request) -> (result: Option<Option<String>>)
        ensures
            final(self)@ == old(self)@.ask_commit(request@).talk,
            result is Some <==> old(self)@.ask_commit(request@).out is Some,
            result matches Some(commit) ==> old(self)@.ask_commit(request@).out == Some(
                Ok::<Option<Seq<char>>, ErrorView>(commit.deep_view()),
            ),
    {
        match self.put(request)? {
            Reply::Commit(Some(commit)) => Some(Some(commit.clone())),
            _ => Some(None),
        }
    }
}

} // verus!
