use rift_core::copy::{copy_dir_all, Turn};
use rift_core::dialogue::{EntryKind, Listed, Output, Place, Reply, Request, Session};
use rift_core::error::{Error, Failure, FailureKind};
use rift_core::git::{
    check_safe_state, check_source, check_source_allow_worktree, detach_destination, git_path,
    hidden_contents, hide_marker, resolve_dirs, Source,
};
use rift_core::id::RiftId;
use rift_core::path::FsPath;
use rift_core::worktree::{
    configure_external_root, copy_source_index, ensure_head_commit, ensure_toplevel, head_state,
    initialize_root, move_dir, prune, real_directory, register_cow_clone,
    remove_empty_storage_parent, remove_registered_worktree, remove_shared_git_storage,
    restore_inline_root, rollback_initialize_root, shared_git_dir_for,
    validate_inline_root_restore, validate_worktree_dir, HeadState,
};
use std::collections::BTreeMap;

#[derive(Clone, Debug, PartialEq, Eq)]
enum Node {
    Dir,
    File(String),
    Link(String),
}

/// A file system with just enough of Git for the operations under test.
#[derive(Clone)]
struct World {
    nodes: BTreeMap<String, Node>,
    /// Whether commits can be looked up without running Git.
    direct: bool,
    /// The number of the request that fails, if one does.
    broken: Option<usize>,
    count: usize,
    log: Vec<String>,
}

fn path(text: &str) -> FsPath {
    FsPath::from_text(text)
}

fn id(text: &str) -> RiftId {
    RiftId::from_stored(text.to_owned())
}

fn text(path: &FsPath) -> String {
    path.to_text().unwrap()
}

fn failed(kind: FailureKind, message: &str) -> Reply {
    Reply::Failed(Failure { kind, message: message.to_owned() })
}

fn missing() -> Reply {
    failed(FailureKind::NotFound, "missing")
}

fn refused() -> Reply {
    failed(FailureKind::Other, "refused")
}

fn printed(success: bool, text: &str) -> Reply {
    let bytes = text.as_bytes().to_vec();
    if success {
        Reply::Printed(Output { success, stdout: bytes, stderr: Vec::new() })
    } else {
        Reply::Printed(Output { success, stdout: Vec::new(), stderr: bytes })
    }
}

fn parent(path: &str) -> String {
    match path.rfind('/') {
        Some(0) | None => "/".to_owned(),
        Some(at) => path[..at].to_owned(),
    }
}

fn inside(path: &str, dir: &str) -> bool {
    path == dir || path.starts_with(&format!("{dir}/"))
}

/// Paths below `/far` are on another file system.
fn far(path: &str) -> bool {
    inside(path, "/far")
}

impl World {
    fn new() -> World {
        let mut nodes = BTreeMap::new();
        nodes.insert("/".to_owned(), Node::Dir);
        World { nodes, direct: false, broken: None, count: 0, log: Vec::new() }
    }

    fn dir(&mut self, path: &str) {
        if !self.nodes.contains_key(path) {
            let above = parent(path);
            self.dir(&above);
            self.nodes.insert(path.to_owned(), Node::Dir);
        }
    }

    fn file(&mut self, path: &str, contents: &str) {
        self.dir(&parent(path));
        self.nodes.insert(path.to_owned(), Node::File(contents.to_owned()));
    }

    fn read(&self, path: &str) -> Option<String> {
        match self.nodes.get(path) {
            Some(Node::File(contents)) => Some(contents.clone()),
            _ => None,
        }
    }

    fn has(&self, path: &str) -> bool {
        self.nodes.contains_key(path)
    }

    fn is_dir(&self, path: &str) -> bool {
        self.nodes.get(path) == Some(&Node::Dir)
    }

    fn below(&self, dir: &str) -> Vec<String> {
        self.nodes.keys().filter(|at| inside(at, dir)).cloned().collect()
    }

    fn remove(&mut self, dir: &str) {
        for at in self.below(dir) {
            self.nodes.remove(&at);
        }
    }

    /// Makes a repository without a commit, as `git init` does.
    fn init(&mut self, worktree: &str) {
        self.dir(worktree);
        let git = format!("{worktree}/.git");
        self.file(&format!("{git}/HEAD"), "ref: refs/heads/main\n");
        self.file(&format!("{git}/objects/pack"), "all that was ever committed");
    }

    fn commit(&mut self, worktree: &str, commit: &str) {
        self.file(&format!("{worktree}/.git/refs/heads/main"), &format!("{commit}\n"));
    }

    /// The places that hold the repository.
    fn holders(&self) -> Vec<String> {
        self.nodes
            .keys()
            .filter(|at| at.ends_with("/objects/pack"))
            .map(|at| parent(&parent(at)))
            .collect()
    }

    fn git_dir(&self, place: &Place) -> Option<String> {
        let git_dir = match place {
            Place::GitDir(path) => text(path),
            Place::WorkTree(path) => {
                let git = format!("{}/.git", text(path));
                match self.nodes.get(&git) {
                    Some(Node::Dir) => git,
                    Some(Node::File(pointer)) => {
                        pointer.strip_prefix("gitdir: ")?.trim_end().to_owned()
                    }
                    _ => return None,
                }
            }
        };
        if self.has(&format!("{git_dir}/HEAD")) {
            Some(git_dir)
        } else {
            None
        }
    }

    fn common_dir(&self, git_dir: &str) -> String {
        if self.has(&format!("{git_dir}/commondir")) {
            parent(&parent(git_dir))
        } else {
            git_dir.to_owned()
        }
    }

    fn head_commit(&self, place: &Place) -> Option<String> {
        let git_dir = self.git_dir(place)?;
        let head = self.read(&format!("{git_dir}/HEAD"))?;
        match head.strip_prefix("ref: ") {
            None => Some(head.trim_end().to_owned()),
            Some(name) => {
                let common = self.common_dir(&git_dir);
                let found = self.read(&format!("{common}/{}", name.trim_end()))?;
                Some(found.trim_end().to_owned())
            }
        }
    }

    fn git(&mut self, place: &Place, args: &[String]) -> Reply {
        let Some(git_dir) = self.git_dir(place) else {
            return printed(false, "fatal: not a git repository\n");
        };
        let words: Vec<&str> = args.iter().map(|word| word.as_str()).collect();
        match words.as_slice() {
            ["rev-parse", "--path-format=absolute", "--git-dir"] => {
                printed(true, &format!("{git_dir}\n"))
            }
            ["rev-parse", "--path-format=absolute", "--git-common-dir"] => {
                printed(true, &format!("{}\n", self.common_dir(&git_dir)))
            }
            ["rev-parse", "--show-toplevel"] => match place {
                Place::WorkTree(path) => printed(true, &format!("{}\n", text(path))),
                Place::GitDir(_) => printed(false, "fatal\n"),
            },
            ["rev-parse", "--verify", "HEAD^{commit}"] => match self.head_commit(place) {
                Some(commit) => printed(true, &format!("{commit}\n")),
                None => printed(false, "fatal: Needed a single revision\n"),
            },
            ["config", "--unset", key] => {
                let setting = format!("{git_dir}/config.{key}");
                let known = self.has(&setting);
                self.remove(&setting);
                printed(known, "")
            }
            ["config", key, value] => {
                self.file(&format!("{git_dir}/config.{key}"), value);
                printed(true, "")
            }
            ["reset", "--mixed", "--quiet", commit] => {
                self.file(&format!("{git_dir}/index"), &format!("index of {commit}"));
                printed(true, "")
            }
            ["status", "--porcelain"] => printed(true, ""),
            ["worktree", "list", "--porcelain"] => printed(true, ""),
            ["worktree", "prune"] => printed(true, ""),
            _ => printed(false, "fatal: unknown\n"),
        }
    }

    fn rename(&mut self, from: &str, to: &str) -> Reply {
        if !self.has(from) || !self.has(&parent(to)) {
            return missing();
        }
        if far(from) != far(to) {
            return failed(FailureKind::CrossesDevices, "cross-device link");
        }
        if inside(to, from) {
            return refused();
        }
        if self.has(to) && !(self.is_dir(to) && self.is_dir(from) && self.below(to).len() == 1) {
            return refused();
        }
        for at in self.below(from) {
            let node = self.nodes.remove(&at).unwrap();
            self.nodes.insert(format!("{to}{}", &at[from.len()..]), node);
        }
        Reply::Done
    }

    fn copy_tree(&mut self, from: &FsPath, to: &FsPath) -> Reply {
        let mut copy = copy_dir_all(from, to);
        loop {
            match copy.turn() {
                Turn::Finished => return Reply::Done,
                Turn::Stuck(_) => return refused(),
                Turn::Ask(request) => {
                    let reply = self.perform(&request);
                    if copy.answer(&reply).is_err() {
                        return refused();
                    }
                }
            }
        }
    }

    fn list(&self, dir: &str) -> Reply {
        if !self.is_dir(dir) {
            return missing();
        }
        let mut found = Vec::new();
        for (at, node) in &self.nodes {
            if at != dir && parent(at) == dir {
                let name = at[dir.len() + 1..].as_bytes().to_vec();
                let kind = match node {
                    Node::Dir => EntryKind::Directory,
                    Node::File(_) => EntryKind::Other,
                    Node::Link(_) => EntryKind::Symlink,
                };
                found.push(Listed::Entry(name, kind));
            }
        }
        Reply::Listing(found)
    }

    fn perform(&mut self, request: &Request) -> Reply {
        self.log.push(format!("{request:?}"));
        let number = self.count;
        self.count += 1;
        if self.broken == Some(number) {
            return match request {
                Request::Git(_, _) => printed(false, "fatal: broken\n"),
                _ => refused(),
            };
        }
        match request {
            Request::Exists(at) => Reply::Flag(self.has(&text(at))),
            Request::IsDir(at) => Reply::Flag(self.is_dir(&text(at))),
            Request::Inspect(at) => match self.nodes.get(&text(at)) {
                None => missing(),
                Some(Node::Dir) => Reply::Kind(EntryKind::Directory),
                Some(Node::File(_)) => Reply::Kind(EntryKind::Other),
                Some(Node::Link(_)) => Reply::Kind(EntryKind::Symlink),
            },
            Request::ReadText(at) => match self.nodes.get(&text(at)) {
                None => missing(),
                Some(Node::File(contents)) => Reply::Text(contents.clone()),
                Some(_) => refused(),
            },
            Request::WriteText(at, contents) => {
                let at = text(at);
                if self.is_dir(&at) || !self.is_dir(&parent(&at)) {
                    return refused();
                }
                self.nodes.insert(at, Node::File(contents.clone()));
                Reply::Done
            }
            Request::CreateDirs(at) => {
                self.dir(&text(at));
                Reply::Done
            }
            Request::Rename(from, to) => self.rename(&text(from), &text(to)),
            Request::RemoveFile(at) => {
                if self.is_dir(&text(at)) {
                    return refused();
                }
                match self.nodes.remove(&text(at)) {
                    Some(_) => Reply::Done,
                    None => missing(),
                }
            }
            Request::RemoveDir(at) => {
                if self.below(&text(at)).len() != 1 {
                    return refused();
                }
                self.remove(&text(at));
                Reply::Done
            }
            Request::RemoveTree(at) => {
                if !self.is_dir(&text(at)) {
                    return missing();
                }
                self.remove(&text(at));
                Reply::Done
            }
            Request::CopyFile(from, to) => match self.read(&text(from)) {
                Some(contents) => {
                    self.nodes.insert(text(to), Node::File(contents));
                    Reply::Done
                }
                None => missing(),
            },
            Request::CopyLink(from, to) => {
                let node = self.nodes.get(&text(from)).unwrap().clone();
                self.nodes.insert(text(to), node);
                Reply::Done
            }
            Request::CopyTree(from, to) => self.copy_tree(from, to),
            Request::ListDir(at) => self.list(&text(at)),
            Request::Canonicalize(at) => {
                if self.has(&text(at)) {
                    Reply::Location(at.clone())
                } else {
                    missing()
                }
            }
            Request::Git(place, args) | Request::GitVisibly(place, args) => self.git(place, args),
            Request::HeadCommit(at) => {
                let place = Place::WorkTree(at.clone());
                Reply::Commit(if self.direct { self.head_commit(&place) } else { None })
            }
            _ => unreachable!(),
        }
    }

    /// Runs an operation to its end, and looks at the world after each request.
    fn watch<T>(
        &mut self,
        operation: impl Fn(&mut Session) -> Option<T>,
        look: impl Fn(&World),
    ) -> T {
        let mut session = Session::new();
        loop {
            if let Some(result) = operation(&mut session) {
                return result;
            }
            let reply = self.perform(session.last_request().unwrap());
            session.answer(reply);
            look(self);
        }
    }

    fn run<T>(&mut self, operation: impl Fn(&mut Session) -> Option<T>) -> T {
        self.watch(operation, |_| {})
    }
}

fn assert_marker_is_excluded(contents: &str) {
    assert_eq!(
        contents
            .lines()
            .filter(|line| line.trim() == "/.rift")
            .count(),
        1
    );
}

#[test]
fn linked_worktree_marker_is_rejected() {
    let mut world = World::new();
    world.dir("/temp");
    world.file("/temp/.git", "gitdir: elsewhere");

    assert!(matches!(
        world.run(|session| check_source(&path("/temp"), session)),
        Err(Error::UnsafeGit(_))
    ));
}

#[test]
fn check_source_distinguishes_plain_and_git_directories() {
    let mut world = World::new();
    world.dir("/plain");
    assert_eq!(
        world.run(|session| check_source(&path("/plain"), session)).unwrap(),
        Source::PlainDirectory
    );

    world.init("/git");
    assert_eq!(
        world.run(|session| check_source(&path("/git"), session)).unwrap(),
        Source::Repository
    );
    assert!(Source::Repository.is_repository());
    assert!(!Source::PlainDirectory.is_repository());
}

#[test]
fn hide_marker_creates_and_appends_exclude_cleanly() {
    let mut world = World::new();
    world.init("/temp");

    world.run(|session| hide_marker(&path("/temp"), session)).unwrap();
    assert_marker_is_excluded(&world.read("/temp/.git/info/exclude").unwrap());
    world.file("/temp/.git/info/exclude", "existing");
    world.run(|session| hide_marker(&path("/temp"), session)).unwrap();
    assert_eq!(
        world.read("/temp/.git/info/exclude").unwrap(),
        "existing\n/.rift\n"
    );
    world.run(|session| hide_marker(&path("/temp"), session)).unwrap();
    assert_eq!(
        world.read("/temp/.git/info/exclude").unwrap(),
        "existing\n/.rift\n"
    );
}

/// Links `linked` to the repository of `repo`, as `git worktree add --detach` does.
fn link(world: &mut World, repo: &str, linked: &str) {
    let commit = world.head_commit(&Place::WorkTree(path(repo))).unwrap();
    let git_dir = format!("{repo}/.git/worktrees/linked");
    world.file(&format!("{git_dir}/HEAD"), &format!("{commit}\n"));
    world.file(&format!("{git_dir}/commondir"), "../..\n");
    world.file(&format!("{git_dir}/gitdir"), &format!("{linked}/.git\n"));
    world.file(&format!("{linked}/.git"), &format!("gitdir: {git_dir}\n"));
}

#[test]
fn hide_marker_uses_common_dir_for_linked_worktrees() {
    let mut world = World::new();
    world.init("/temp/repo");
    world.file("/temp/repo/file.txt", "hello");
    world.commit("/temp/repo", "c0ffee");
    link(&mut world, "/temp/repo", "/temp/linked");
    let linked = path("/temp/linked");

    world.run(|session| hide_marker(&linked, session)).unwrap();

    let common = world.run(|session| resolve_dirs(&linked, session)).unwrap().unwrap().common_dir;
    assert_marker_is_excluded(&world.read(&text(&common.join("info/exclude"))).unwrap());
    assert_eq!(text(&common), "/temp/repo/.git");
}

#[test]
fn detach_does_nothing_for_a_repository_without_a_commit() {
    let mut world = World::new();
    world.init("/temp");
    let head = world.read("/temp/.git/HEAD").unwrap();

    world.run(|session| detach_destination(&path("/temp"), session)).unwrap();

    assert_eq!(world.read("/temp/.git/HEAD").unwrap(), head);
    world.direct = true;
    world.run(|session| detach_destination(&path("/temp"), session)).unwrap();
    assert_eq!(world.read("/temp/.git/HEAD").unwrap(), head);
}

#[test]
fn detaching_writes_the_commit() {
    for direct in [false, true] {
        let mut world = World::new();
        world.direct = direct;
        world.init("/temp");
        world.commit("/temp", "c0ffee");
        world.run(|session| detach_destination(&path("/temp"), session)).unwrap();
        assert_eq!(world.read("/temp/.git/HEAD").unwrap(), "c0ffee\n");
    }
}

#[test]
fn detaching_a_plain_directory_does_nothing() {
    let mut world = World::new();
    world.dir("/temp");
    let before = world.nodes.clone();
    world.run(|session| detach_destination(&path("/temp"), session)).unwrap();
    assert_eq!(world.nodes, before);
}

#[test]
fn every_operation_in_progress_is_noticed() {
    for state in [
        "MERGE_HEAD",
        "CHERRY_PICK_HEAD",
        "REVERT_HEAD",
        "BISECT_LOG",
        "rebase-merge",
        "rebase-apply",
        "index.lock",
        "HEAD.lock",
    ] {
        let mut world = World::new();
        world.init("/temp");
        world.file(&format!("/temp/.git/{state}"), "");
        let expected = Err(Error::UnsafeGit(format!("Git state in progress: {state}")));
        assert_eq!(world.run(|session| check_source(&path("/temp"), session)), expected);
        assert_eq!(
            world.run(|session| check_source_allow_worktree(&path("/temp"), session)),
            expected
        );
    }
}

#[test]
fn checks_change_nothing() {
    let mut world = World::new();
    world.init("/temp");
    let before = world.nodes.clone();
    world.run(|session| check_safe_state(&path("/temp"), session)).unwrap();
    world.run(|session| check_source_allow_worktree(&path("/temp"), session)).unwrap();
    world.run(|session| head_state(&path("/temp"), session)).unwrap();
    assert!(world.run(|session| ensure_head_commit(&path("/temp"), session)).is_err());
    assert_eq!(world.nodes, before);
}

#[test]
fn both_checks_agree_on_inline_repositories_and_plain_directories() {
    let mut world = World::new();
    world.dir("/plain");
    world.init("/quiet");
    world.init("/busy");
    world.file("/busy/.git/MERGE_HEAD", "");
    world.dir("/broken/.git");
    for place in ["/plain", "/quiet", "/busy", "/broken"] {
        let strict = world.run(|session| check_source(&path(place), session));
        let lenient = world.run(|session| check_source_allow_worktree(&path(place), session));
        assert_eq!(strict, lenient, "{place}");
        assert_eq!(strict.is_ok(), place == "/plain" || place == "/quiet", "{place}");
    }
}

#[test]
fn linked_worktrees_may_be_allowed() {
    let mut world = World::new();
    world.init("/repo");
    world.commit("/repo", "c0ffee");
    link(&mut world, "/repo", "/linked");
    assert_eq!(
        world.run(|session| check_source_allow_worktree(&path("/linked"), session)),
        Ok(Source::Repository)
    );
    world.file("/linked/.git", "gitdir: elsewhere");
    assert_eq!(
        world.run(|session| check_source_allow_worktree(&path("/linked"), session)),
        Err(Error::UnsafeGit(
            "failed to resolve Git path with --git-dir: fatal: not a git repository".to_owned()
        ))
    );
}

#[test]
fn git_paths_are_trimmed_and_not_empty() {
    let mut session = Session::new();
    session.answer(printed(true, " /a b/.git \n"));
    assert_eq!(git_path(&path("/x"), "--git-dir", &mut session), Some(Ok(path("/a b/.git"))));

    let mut session = Session::new();
    session.answer(printed(true, " \n"));
    assert_eq!(
        git_path(&path("/x"), "--git-dir", &mut session),
        Some(Err(Error::UnsafeGit("Git returned an empty path for --git-dir".to_owned())))
    );

    // Bytes that are no text are shown by replacement characters.
    let mut session = Session::new();
    session.answer(Reply::Printed(Output {
        success: true,
        stdout: vec![0x2f, 0xff, 0x0a],
        stderr: Vec::new(),
    }));
    assert_eq!(git_path(&path("/x"), "--git-dir", &mut session), Some(Ok(path("/\u{fffd}"))));

    // Git that cannot be started is a failure of the system.
    let mut session = Session::new();
    session.answer(missing());
    assert!(matches!(git_path(&path("/x"), "--git-dir", &mut session), Some(Err(Error::Io(_)))));
}

#[test]
fn markers_are_found_with_white_space_around_them() {
    assert_eq!(hidden_contents(""), Some("/.rift\n".to_owned()));
    assert_eq!(hidden_contents("a\n"), Some("a\n/.rift\n".to_owned()));
    assert_eq!(hidden_contents("a"), Some("a\n/.rift\n".to_owned()));
    assert_eq!(hidden_contents("/.rift/x\n#/.rift"), Some("/.rift/x\n#/.rift\n/.rift\n".to_owned()));
    assert_eq!(hidden_contents("/.rift"), None);
    assert_eq!(hidden_contents("a\r\n\t/.rift \r\nb"), None);
    assert_eq!(hidden_contents("\u{3000}/.rift\u{a0}"), None);
}

#[test]
fn unreadable_exclude_files_are_reported() {
    let mut world = World::new();
    world.init("/temp");
    world.dir("/temp/.git/info/exclude");
    assert!(matches!(
        world.run(|session| hide_marker(&path("/temp"), session)),
        Err(Error::Io(_))
    ));
}

fn prepared() -> World {
    let mut world = World::new();
    world.init("/work");
    world.commit("/work", "c0ffee");
    world.nodes.insert("/work/.git/link".to_owned(), Node::Link("HEAD".to_owned()));
    world
}

fn initialize(world: &mut World, storage: &str) -> Result<String, Error> {
    let storage = path(storage);
    world
        .run(|session| initialize_root(&path("/work"), &id("r1"), &storage, session))
        .map(|root| text(&root.git_dir))
}

#[test]
fn initialization_moves_the_repository_into_the_store() {
    let mut world = prepared();
    assert_eq!(initialize(&mut world, "/store/repos").unwrap(), "/store/repos/r1/git");
    assert_eq!(world.read("/work/.git").unwrap(), "gitdir: /store/repos/r1/git\n");
    assert_eq!(world.read("/store/repos/r1/git/config.core.worktree").unwrap(), "/work");
    assert_eq!(world.read("/store/repos/r1/git/config.core.bare").unwrap(), "false");
    assert_eq!(world.holders(), vec!["/store/repos/r1/git"]);
    assert!(!world.has("/store/repos/r1.tmp"));
}

#[test]
fn initialization_and_restoration_undo_each_other() {
    for storage in ["/store/repos", "/far/repos"] {
        let mut world = prepared();
        if storage == "/far/repos" {
            // A store on another file system cannot be reached by the first move.
            world.dir("/far");
            assert!(initialize(&mut world, storage).is_err());
            assert_eq!(world.holders(), vec!["/work/.git"]);
            continue;
        }
        let before = world.below("/work");
        initialize(&mut world, storage).unwrap();
        let shared = path("/store/repos/r1/git");
        world.run(|session| restore_inline_root(&path("/work"), &shared, session)).unwrap();
        let mut after = world.below("/work");
        after.retain(|at| !at.ends_with("config.core.bare"));
        assert_eq!(after, before);
        assert!(!world.has("/store/repos/r1"));
    }
}

#[test]
fn stores_may_be_in_the_working_tree_or_around_it() {
    for storage in ["/work/store", "/", "/work/.git.rift-restore-tmp"] {
        let mut world = prepared();
        let shared = initialize(&mut world, storage).unwrap();
        assert_eq!(world.holders(), vec![shared.clone()], "{storage}");
        world.run(|session| restore_inline_root(&path("/work"), &path(&shared), session)).unwrap();
        assert_eq!(world.holders(), vec!["/work/.git"], "{storage}");
        assert!(!world.has(&parent(&shared)), "{storage}");
    }
}

#[test]
fn a_repository_is_not_moved_into_itself() {
    let mut world = prepared();
    assert!(initialize(&mut world, "/work/.git/store").is_err());
    assert_eq!(world.holders(), vec!["/work/.git"]);
    assert!(world.is_dir("/work/.git"));
}

#[test]
fn a_working_tree_inside_its_own_store_is_refused() {
    let mut world = World::new();
    world.init("/store/r1/work");
    world.commit("/store/r1/work", "c0ffee");
    let work = path("/store/r1/work");
    let made =
        world.run(|session| initialize_root(&work, &id("r1"), &path("/store"), session));
    assert_eq!(made.map(|root| text(&root.git_dir)), Err(Error::AlreadyExists(path("/store/r1"))));
    assert_eq!(world.holders(), vec!["/store/r1/work/.git"]);
}

#[test]
fn initialization_never_loses_the_repository() {
    let mut number = 0;
    loop {
        let mut world = prepared();
        world.broken = Some(number);
        let result = world.watch(
            |session| initialize_root(&path("/work"), &id("r1"), &path("/store/repos"), session),
            |now| assert!(!now.holders().is_empty()),
        );
        assert!(!world.holders().is_empty());
        if result.is_ok() && world.count <= number {
            break;
        }
        // Where the repository could be brought back, it is nowhere else.
        if result.is_err() && world.holders().contains(&"/work/.git".to_owned()) {
            assert_eq!(world.holders(), vec!["/work/.git"]);
            assert!(world.is_dir("/work/.git"));
            assert!(!world.has("/store/repos/r1"));
        }
        number += 1;
    }
    assert!(number > 15);
}

#[test]
fn restoration_never_loses_the_repository() {
    for store in ["/store/r1/git", "/far/r1/git"] {
        let mut number = 0;
        loop {
            let mut world = prepared();
            world.dir(&parent(store));
            // Put the repository into the store by hand, wherever that is.
            for at in world.below("/work/.git") {
                let node = world.nodes.remove(&at).unwrap();
                world.nodes.insert(format!("{store}{}", &at["/work/.git".len()..]), node);
            }
            world.file("/work/.git", &format!("gitdir: {store}\n"));
            world.broken = Some(number);
            let shared = path(store);
            let result = world.watch(
                |session| restore_inline_root(&path("/work"), &shared, session),
                |now| assert!(!now.holders().is_empty()),
            );
            if result.is_ok() {
                assert!(world.holders().contains(&"/work/.git".to_owned()));
            } else {
                assert!(!world.holders().is_empty());
            }
            if world.count <= number {
                assert_eq!(world.holders(), vec!["/work/.git"]);
                assert!(!world.has("/work/.git.rift-restore-tmp"));
                break;
            }
            number += 1;
        }
        assert!(number > 5);
    }
}

#[test]
fn initialization_needs_an_inline_repository_at_its_top() {
    let mut world = World::new();
    world.dir("/work");
    let no_repository = Error::UnsafeGit(
        "rift init --worktrees requires a repository with an inline .git directory".to_owned(),
    );
    assert_eq!(initialize(&mut world, "/store"), Err(no_repository));

    let mut session = Session::new();
    session.answer(printed(true, "/work/..\n"));
    session.answer(Reply::Location(path("/work/sub")));
    session.answer(Reply::Location(path("/work")));
    assert_eq!(
        ensure_toplevel(&path("/work/sub"), &mut session),
        Some(Err(Error::UnsafeGit(
            "rift init --worktrees must run at the repository root".to_owned()
        )))
    );
    session.rewind();
    let mut session = Session::new();
    session.answer(printed(true, "/work\n"));
    session.answer(Reply::Location(path("/work/")));
    session.answer(Reply::Location(path("/work")));
    assert_eq!(ensure_toplevel(&path("/work"), &mut session), Some(Ok(())));
}

#[test]
fn stores_that_exist_are_not_touched() {
    for taken in ["/store/repos/r1", "/store/repos/r1.tmp"] {
        let mut world = prepared();
        world.dir(taken);
        let before = world.nodes.clone();
        assert_eq!(
            initialize(&mut world, "/store/repos"),
            Err(Error::AlreadyExists(path("/store/repos/r1")))
        );
        assert_eq!(world.nodes, before);
    }
}

#[test]
fn rollback_without_a_store_does_nothing() {
    let mut world = prepared();
    let before = world.nodes.clone();
    let (inline, staging, last) = (path("/work/.git"), path("/s.tmp/git"), path("/s/git"));
    world.run(|session| {
        rollback_initialize_root(&inline, &staging, &last, &path("/s.tmp"), &path("/s"), session)
    });
    assert_eq!(world.nodes, before);
}

#[test]
fn rollback_does_not_overwrite_a_directory() {
    let mut world = prepared();
    world.file("/s/git/objects/pack", "another");
    let (inline, staging, last) = (path("/work/.git"), path("/s.tmp/git"), path("/s/git"));
    world.run(|session| {
        rollback_initialize_root(&inline, &staging, &last, &path("/s.tmp"), &path("/s"), session)
    });
    assert_eq!(world.holders(), vec!["/s/git", "/work/.git"]);
}

#[test]
fn moves_across_file_systems_go_through_a_copy() {
    let mut world = World::new();
    world.file("/far/git/objects/pack", "x");
    world.nodes.insert("/far/git/link".to_owned(), Node::Link("HEAD".to_owned()));
    world.dir("/work");
    let (from, to) = (path("/far/git"), path("/work/.git"));
    world.run(|session| move_dir(&from, &to, session)).unwrap();
    assert_eq!(world.holders(), vec!["/work/.git"]);
    assert_eq!(world.nodes.get("/work/.git/link"), Some(&Node::Link("HEAD".to_owned())));
    assert!(!world.has("/far/git"));

    let mut world = World::new();
    world.file("/far/git/objects/pack", "x");
    world.dir("/work/.git.rift-restore-tmp");
    assert_eq!(
        world.run(|session| move_dir(&from, &to, session)),
        Err(Error::AlreadyExists(path("/work/.git.rift-restore-tmp")))
    );
    assert_eq!(world.holders(), vec!["/far/git"]);
}

#[test]
fn directories_behind_links_are_not_real() {
    let mut world = World::new();
    world.dir("/dir");
    world.nodes.insert("/link".to_owned(), Node::Link("/dir".to_owned()));
    assert_eq!(world.run(|session| real_directory(&path("/dir"), session)), Ok(true));
    assert_eq!(world.run(|session| real_directory(&path("/link"), session)), Ok(false));
    assert_eq!(world.run(|session| real_directory(&path("/none"), session)), Ok(false));
    world.broken = Some(world.count);
    assert!(world.run(|session| real_directory(&path("/dir"), session)).is_err());
}

#[test]
fn heads_are_commits_or_branches() {
    let mut world = prepared();
    let head = world.run(|session| head_state(&path("/work"), session)).unwrap();
    assert!(matches!(&head, HeadState::Commit(commit) if commit == "c0ffee"));
    assert_eq!(head.contents(), "c0ffee\n");
    assert_eq!(world.run(|session| ensure_head_commit(&path("/work"), session)), Ok(()));

    world.init("/empty");
    let head = world.run(|session| head_state(&path("/empty"), session)).unwrap();
    assert_eq!(head.contents(), "ref: refs/heads/main\n");
    assert_eq!(
        world.run(|session| ensure_head_commit(&path("/empty"), session)),
        Err(Error::UnsafeGit(
            "rift init --worktrees requires a repository with at least one commit".to_owned()
        ))
    );

    world.dir("/plain");
    assert_eq!(
        world.run(|session| ensure_head_commit(&path("/plain"), session)),
        Err(Error::UnsafeGit("source is not a Git repository".to_owned()))
    );

    let mut session = Session::new();
    session.answer(printed(false, ""));
    session.answer(Reply::Flag(true));
    session.answer(printed(true, "/x/.git"));
    session.answer(printed(true, "/x/.git"));
    session.answer(Reply::Text("nonsense".to_owned()));
    assert_eq!(
        ensure_head_commit(&path("/x"), &mut session),
        Some(Err(Error::UnsafeGit(
            "cannot resolve Git HEAD for worktree registration".to_owned()
        )))
    );
}

/// A root in its store and a copy of its working tree.
fn copied() -> World {
    let mut world = prepared();
    initialize(&mut world, "/store").unwrap();
    world.file("/store/r1/git/index", "the index");
    world.file("/copy/.git", "gitdir: /store/r1/git\n");
    world
}

fn register(world: &mut World) -> Result<String, Error> {
    let root = path("/store/r1/git");
    world
        .run(|session| register_cow_clone(&root, &path("/work"), &path("/copy"), &id("c1"), session))
        .map(|registered| text(&registered.git_dir))
}

#[test]
fn copies_are_registered_as_worktrees() {
    let mut world = copied();
    let metadata = "/store/r1/git/worktrees/c1";
    assert_eq!(register(&mut world).unwrap(), metadata);
    assert_eq!(world.read("/copy/.git").unwrap(), format!("gitdir: {metadata}\n"));
    assert_eq!(world.read(&format!("{metadata}/gitdir")).unwrap(), "/copy/.git\n");
    assert_eq!(world.read(&format!("{metadata}/commondir")).unwrap(), "../..\n");
    assert_eq!(world.read(&format!("{metadata}/HEAD")).unwrap(), "c0ffee\n");
    assert_eq!(world.read(&format!("{metadata}/index")).unwrap(), "the index");
    assert_eq!(
        register(&mut world),
        Err(Error::AlreadyExists(path("/store/r1/git/worktrees/c1")))
    );
}

#[test]
fn copies_without_an_index_get_one_from_git() {
    let mut world = copied();
    world.remove("/store/r1/git/index");
    register(&mut world).unwrap();
    assert_eq!(world.read("/store/r1/git/worktrees/c1/index").unwrap(), "index of c0ffee");
}

#[test]
fn failed_registrations_leave_no_metadata() {
    let mut number = 0;
    loop {
        let mut world = copied();
        world.count = 0;
        world.broken = Some(number);
        let result = register(&mut world);
        if world.count <= number {
            assert!(result.is_ok());
            break;
        }
        if result.is_err() {
            assert!(!world.has("/store/r1/git/worktrees/c1"));
        }
        // The source and the repository are as they were.
        assert_eq!(world.read("/work/.git").unwrap(), "gitdir: /store/r1/git\n");
        assert_eq!(world.holders(), vec!["/store/r1/git"]);
        number += 1;
    }
    assert!(number > 12);
}

#[test]
fn indexes_are_copied_where_there_is_one() {
    let mut world = copied();
    world.dir("/m");
    let (source, target) = (path("/work"), path("/m"));
    assert_eq!(world.run(|session| copy_source_index(&source, &target, session)), Ok(true));
    assert_eq!(world.read("/m/index").unwrap(), "the index");
    world.remove("/store/r1/git/index");
    assert_eq!(world.run(|session| copy_source_index(&source, &target, session)), Ok(false));
}

#[test]
fn registered_metadata_is_removed_whatever_it_is() {
    let mut world = World::new();
    world.file("/dir/file", "");
    world.file("/file", "");
    for at in ["/dir", "/file", "/none"] {
        assert_eq!(world.run(|session| remove_registered_worktree(&path(at), session)), Ok(()));
        assert!(!world.has(at));
    }
}

#[test]
fn only_stores_are_removed() {
    let mut world = copied();
    for wrong in ["/store/r1/other", "/store/r2/git", "/store/../r1/git", "git"] {
        let result =
            world.run(|session| remove_shared_git_storage(&path(wrong), &id("r1"), session));
        assert_eq!(
            result,
            Err(Error::UnsafeGit(format!(
                "refusing to remove shared Git storage outside Rift repository storage: {wrong}"
            )))
        );
    }
    assert_eq!(
        world.run(|session| remove_shared_git_storage(&path("/"), &id("r1"), session)),
        Err(Error::Path("shared Git dir has no parent: /".to_owned()))
    );
    let store = shared_git_dir_for(&path("/store"), &id("r1"));
    assert_eq!(text(&store), "/store/r1/git");
    world.run(|session| remove_shared_git_storage(&store, &id("r1"), session)).unwrap();
    assert!(!world.has("/store/r1"));
    assert!(world.has("/store"));
    // What is gone already is no failure.
    world.run(|session| remove_shared_git_storage(&store, &id("r1"), session)).unwrap();
}

#[test]
fn only_worktree_metadata_is_removed() {
    let root = path("/store/r1/git");
    assert_eq!(validate_worktree_dir(&root, &path("/store/r1/git/worktrees/c1")), Ok(()));
    assert_eq!(validate_worktree_dir(&root, &path("/store//r1/git/./worktrees/c1/")), Ok(()));
    for wrong in [
        "/store/r1/git/worktrees",
        "/store/r1/git/worktrees/c1/x",
        "/store/r1/git/worktrees/../c1",
        "/store/r2/git/worktrees/c1",
        "",
    ] {
        assert_eq!(
            validate_worktree_dir(&root, &path(wrong)),
            Err(Error::UnsafeGit(format!(
                "refusing to remove Git metadata outside Rift worktree storage: {wrong}"
            )))
        );
    }
    let climbing = path("/store/../store/git");
    assert!(validate_worktree_dir(&climbing, &climbing.join("worktrees/c1")).is_err());
}

#[test]
fn restoration_is_refused_where_it_cannot_be_done() {
    let mut world = prepared();
    world.dir("/store/r1/git");
    let (work, shared) = (path("/work"), path("/store/r1/git"));
    let in_the_way = Err(Error::UnsafeGit(
        "cannot restore inline Git metadata over existing directory: /work/.git".to_owned(),
    ));
    assert_eq!(
        world.run(|session| validate_inline_root_restore(&work, &shared, session)),
        in_the_way
    );
    assert_eq!(world.run(|session| restore_inline_root(&work, &shared, session)), in_the_way);

    let mut world = World::new();
    world.file("/work/.git", "gitdir: /store/r1/git\n");
    let gone =
        Err(Error::UnsafeGit("shared Git directory is missing: /store/r1/git".to_owned()));
    assert_eq!(world.run(|session| restore_inline_root(&work, &shared, session)), gone);
    assert!(world.has("/work/.git"));
}

#[test]
fn repositories_that_are_inline_already_are_only_configured() {
    let mut world = prepared();
    world.dir("/store/r1");
    world.file("/work/.git/config.core.worktree", "/work");
    let shared = path("/store/r1/git");
    world.run(|session| restore_inline_root(&path("/work"), &shared, session)).unwrap();
    assert!(!world.has("/work/.git/config.core.worktree"));
    assert_eq!(world.read("/work/.git/config.core.bare").unwrap(), "false");
    assert!(!world.has("/store/r1"));
}

#[test]
fn restoring_again_leaves_the_restored_repository() {
    let mut world = prepared();
    initialize(&mut world, "/store/repos").unwrap();
    let shared = path("/store/repos/r1/git");
    world.run(|session| restore_inline_root(&path("/work"), &shared, session)).unwrap();
    assert_eq!(world.holders(), vec!["/work/.git"]);
    assert!(!world.has("/work/.git/config.core.worktree"));
    assert_eq!(world.read("/work/.git/config.core.bare").unwrap(), "false");
    let once = world.nodes.clone();
    world.run(|session| restore_inline_root(&path("/work"), &shared, session)).unwrap();
    assert_eq!(world.nodes, once);
}

#[test]
fn only_empty_parents_are_removed() {
    let mut world = World::new();
    world.file("/store/r1/other", "");
    world.run(|session| remove_empty_storage_parent(&path("/store/r1/git"), session));
    assert!(world.has("/store/r1/other"));
    world.run(|session| remove_empty_storage_parent(&path("/"), session));
    world.remove("/store/r1/other");
    world.run(|session| remove_empty_storage_parent(&path("/store/r1/git"), session));
    assert!(!world.has("/store/r1"));
}

#[test]
fn git_failures_are_reported_with_what_git_said() {
    let mut world = prepared();
    let wrong = path("/nowhere");
    assert_eq!(
        world.run(|session| prune(&wrong, session)),
        Err(Error::UnsafeGit(
            "failed to prune Git worktrees: fatal: not a git repository".to_owned()
        ))
    );
    assert_eq!(
        world.run(|session| configure_external_root(&wrong, &path("/work"), session)),
        Err(Error::UnsafeGit("Git command failed: fatal: not a git repository".to_owned()))
    );
    assert_eq!(world.run(|session| prune(&path("/work/.git"), session)), Ok(()));
}

#[test]
fn running_again_makes_the_same_requests_first() {
    let mut world = prepared();
    let mut session = Session::new();
    let mut earlier: Vec<String> = Vec::new();
    while initialize_root(&path("/work"), &id("r1"), &path("/store"), &mut session).is_none() {
        let asked: Vec<String> =
            (0..session.request_count()).map(|k| format!("{:?}", session.request(k))).collect();
        assert_eq!(asked[..asked.len() - 1], earlier[..]);
        earlier = asked;
        let reply = world.perform(session.last_request().unwrap());
        session.answer(reply);
    }
    assert_eq!(session.request_count(), earlier.len());
    assert_eq!(world.log, earlier);
}
