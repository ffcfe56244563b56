use rift_core::copy::{copy_dir_all, CopyTree, Turn};
use rift_core::dialogue::{EntryKind, Listed, Reply, Request};
use rift_core::error::{Error, Failure, FailureKind};
use rift_core::path::FsPath;

fn path(text: &str) -> FsPath {
    FsPath::from_text(text)
}

fn entry(name: &str, kind: EntryKind) -> Listed {
    Listed::Entry(name.as_bytes().to_vec(), kind)
}

fn asks(copy: &CopyTree, expected: Request) {
    match copy.turn() {
        Turn::Ask(request) => assert_eq!(request, expected),
        _ => panic!("nothing was asked"),
    }
}

fn stuck(copy: &CopyTree, expected: Error) {
    match copy.turn() {
        Turn::Stuck(error) => assert_eq!(error, expected),
        _ => panic!("the copy went on"),
    }
}

fn broken(kind: FailureKind) -> Failure {
    Failure { kind, message: "broken".to_owned() }
}

#[test]
fn everything_is_copied_to_its_place() {
    let mut copy = copy_dir_all(&path("/a"), &path("/b"));
    asks(&copy, Request::CreateDirs(path("/b")));
    copy.answer(&Reply::Done).unwrap();
    asks(&copy, Request::ListDir(path("/a")));
    copy.answer(&Reply::Listing(vec![
        entry("sub", EntryKind::Directory),
        entry("link", EntryKind::Symlink),
        entry("file", EntryKind::Other),
    ]))
    .unwrap();
    asks(&copy, Request::CreateDirs(path("/b/sub")));
    copy.answer(&Reply::Done).unwrap();
    asks(&copy, Request::ListDir(path("/a/sub")));
    copy.answer(&Reply::Listing(vec![entry("deep", EntryKind::Other)])).unwrap();
    asks(&copy, Request::CopyFile(path("/a/sub/deep"), path("/b/sub/deep")));
    copy.answer(&Reply::Done).unwrap();
    asks(&copy, Request::CopyLink(path("/a/link"), path("/b/link")));
    copy.answer(&Reply::Done).unwrap();
    asks(&copy, Request::CopyFile(path("/a/file"), path("/b/file")));
    copy.answer(&Reply::Done).unwrap();
    assert!(matches!(copy.turn(), Turn::Finished));
    assert_eq!(copy.answer(&Reply::Done), Err(Error::Unexpected));
}

#[test]
fn copies_stop_at_the_first_failure() {
    let mut copy = copy_dir_all(&path("/a"), &path("/b"));
    assert_eq!(
        copy.answer(&Reply::Failed(broken(FailureKind::Other))),
        Err(Error::Io(broken(FailureKind::Other)))
    );

    let mut copy = copy_dir_all(&path("/a"), &path("/b"));
    copy.answer(&Reply::Done).unwrap();
    copy.answer(&Reply::Listing(vec![
        Listed::Broken(broken(FailureKind::NotFound)),
        entry("file", EntryKind::Other),
    ]))
    .unwrap();
    stuck(&copy, Error::Io(broken(FailureKind::NotFound)));
    assert_eq!(copy.answer(&Reply::Done), Err(Error::Io(broken(FailureKind::NotFound))));
}

#[test]
fn nothing_is_asked_for_after_a_failure() {
    let mut copy = copy_dir_all(&path("/a"), &path("/b"));
    copy.answer(&Reply::Done).unwrap();
    copy.answer(&Reply::Listing(vec![
        entry("first", EntryKind::Other),
        entry("second", EntryKind::Other),
        entry("third", EntryKind::Directory),
    ]))
    .unwrap();
    copy.answer(&Reply::Done).unwrap();
    asks(&copy, Request::CopyFile(path("/a/second"), path("/b/second")));
    let error = Error::Io(broken(FailureKind::Other));
    assert_eq!(
        copy.answer(&Reply::Failed(broken(FailureKind::Other))),
        Err(Error::Io(broken(FailureKind::Other)))
    );
    stuck(&copy, error.clone());
    assert_eq!(copy.answer(&Reply::Done), Err(error.clone()));
    stuck(&copy, error);
}

#[test]
fn empty_directories_are_made() {
    let mut copy = copy_dir_all(&path("a"), &path("b"));
    copy.answer(&Reply::Done).unwrap();
    copy.answer(&Reply::Listing(Vec::new())).unwrap();
    assert!(matches!(copy.turn(), Turn::Finished));
}

#[test]
fn answers_of_another_shape_end_the_copy() {
    let mut copy = copy_dir_all(&path("a"), &path("b"));
    assert_eq!(copy.answer(&Reply::Flag(true)), Err(Error::Unexpected));
    let mut copy = copy_dir_all(&path("a"), &path("b"));
    copy.answer(&Reply::Done).unwrap();
    assert_eq!(
        copy.answer(&Reply::Rejected("no".to_owned())),
        Err(Error::Database("no".to_owned()))
    );
}
