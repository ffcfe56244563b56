//! What holds of the places where shared Git metadata is kept.

use crate::dialogue::{PlaceView, RequestView, Talk};
use crate::path::{Part, DOT};
use crate::worktree::{HeadStateView, StepView};
use vstd::prelude::*;
use vstd::utf8::*;

verus! {

pub proof fn lemma_fixed_names()
    ensures
        crate::path_facts::plain(encode_utf8("git"@)),
        crate::path_facts::plain(encode_utf8(".git"@)),
        crate::path_facts::plain(encode_utf8("worktrees"@)),
{
    reveal_strlit("git");
    reveal_strlit(".git");
    reveal_strlit("worktrees");
    is_ascii_chars_encode_utf8("git"@);
    is_ascii_chars_encode_utf8(".git"@);
    is_ascii_chars_encode_utf8("worktrees"@);
    assert(encode_utf8("git"@) =~= seq![0x67u8, 0x69u8, 0x74u8]);
    assert(encode_utf8(".git"@) =~= seq![0x2eu8, 0x67u8, 0x69u8, 0x74u8]);
    assert(encode_utf8("worktrees"@) =~= seq![
        0x77u8,
        0x6fu8,
        0x72u8,
        0x6bu8,
        0x74u8,
        0x72u8,
        0x65u8,
        0x65u8,
        0x73u8,
    ]);
    assert(seq![DOT].len() == 1);
    assert(seq![DOT, DOT].len() == 2);
}

/// The store that a root is given is one that may be removed in its name.
pub proof fn own_store_may_be_removed(repo_storage: Seq<u8>, root_id: Seq<char>)
    requires
        crate::path_facts::plain(encode_utf8(root_id)),
        !crate::path::climbs(repo_storage),
    ensures
        crate::worktree::is_store_path(
            crate::worktree::shared_git_dir_of(repo_storage, root_id),
            root_id,
        ),
{
    lemma_fixed_names();
    let id = encode_utf8(root_id);
    let git = encode_utf8("git"@);
    let home = crate::path::joined(repo_storage, id);
    let store = crate::path::joined(home, git);
    crate::path_facts::join_adds_a_component(home, git);
    crate::path_facts::join_does_not_climb(home, git);
    crate::path_facts::join_does_not_climb(repo_storage, id);
    crate::path_facts::join_adds_a_component(repo_storage, id);
    crate::path_facts::parent_undoes_join(home, git);
    let parent = crate::path::parent_of(store)->0;
    lemma_last_name(home, parent);
}

/// Where two paths are the same place, their last names are the same.
pub proof fn lemma_last_name(a: Seq<u8>, b: Seq<u8>)
    requires
        crate::path::parts(a) == crate::path::parts(b),
    ensures
        crate::path::name_of(a) == crate::path::name_of(b),
{
    lemma_last_part(a);
    lemma_last_part(b);
}

proof fn lemma_last_part(s: Seq<u8>)
    ensures
        crate::path::name_of(s) == (if crate::path::parts(s).len() == 0 {
            None
        } else {
            match crate::path::parts(s).last() {
                Part::Name(name) => Some(name),
                _ => None,
            }
        }),
{
    let all = crate::path::spans(s, 0);
    if all.len() > 0 {
        assert(crate::path::parts(s).last() == crate::path::part_of(s, all.last()));
    }
}

/// What may be removed as the store of a root is a directory `git` in one that bears the name of
/// the root.
pub proof fn only_stores_may_be_removed(shared_git_dir: Seq<u8>, root_id: Seq<char>)
    requires
        crate::worktree::is_store_path(shared_git_dir, root_id),
    ensures
        ({
            let all = crate::path::parts(shared_git_dir);
            &&& all.len() >= 2
            &&& all.last() == Part::Name(encode_utf8("git"@))
            &&& all[all.len() - 2] == Part::Name(encode_utf8(root_id))
            &&& !all.contains(Part::Up)
        }),
{
    let parent = crate::path::parent_of(shared_git_dir)->0;
    lemma_last_part(shared_git_dir);
    lemma_last_part(parent);
    crate::path_facts::parent_drops_the_last_component(shared_git_dir);
    let all = crate::path::parts(shared_git_dir);
    assert(all.drop_last().last() == all[all.len() - 2]);
}

/// The metadata that a registration makes is metadata that may be removed.
pub proof fn own_worktree_may_be_removed(root_git_dir: Seq<u8>, id: Seq<char>)
    requires
        crate::path_facts::plain(encode_utf8(id)),
        !crate::path::climbs(root_git_dir),
    ensures
        crate::worktree::is_worktree_path(
            root_git_dir,
            crate::worktree::worktree_dir_of(root_git_dir, id),
        ),
{
    lemma_fixed_names();
    let name = encode_utf8(id);
    let worktrees = crate::path::joined(root_git_dir, encode_utf8("worktrees"@));
    crate::path_facts::join_does_not_climb(root_git_dir, encode_utf8("worktrees"@));
    crate::path_facts::join_does_not_climb(worktrees, name);
    crate::path_facts::parent_undoes_join(worktrees, name);
}

/// What may be removed as worktree metadata lies exactly one name below the `worktrees` of the
/// store.
pub proof fn only_worktrees_may_be_removed(root_git_dir: Seq<u8>, git_dir: Seq<u8>)
    requires
        crate::worktree::is_worktree_path(root_git_dir, git_dir),
    ensures
        ({
            let root = crate::path::parts(root_git_dir);
            let all = crate::path::parts(git_dir);
            &&& all.len() == root.len() + 2
            &&& all.take(root.len() as int) == root
            &&& all[root.len() as int] == Part::Name(encode_utf8("worktrees"@))
            &&& all.last() is Name
        }),
{
    lemma_fixed_names();
    let root = crate::path::parts(root_git_dir);
    let all = crate::path::parts(git_dir);
    let worktrees = encode_utf8("worktrees"@);
    crate::path_facts::join_adds_a_component(root_git_dir, worktrees);
    crate::path_facts::parent_drops_the_last_component(git_dir);
    assert(all.drop_last() == root.push(Part::Name(worktrees)));
    assert(all.take(root.len() as int) =~= root) by {
        assert(all.drop_last().take(root.len() as int) =~= root);
    }
    assert(all[root.len() as int] == all.drop_last()[root.len() as int]);
    crate::path_facts::lemma_later_parts(git_dir);
    assert(all.contains(all.last()));
}

/// The requests that a registration may make. It reads; it writes, links and removes the `.git` of
/// the copy and the metadata directory of the copy; and it lets Git work in the copy. Where it
/// copies an index, it copies it into that metadata directory.
pub open spec fn belongs_to_registration(
    root_git_dir: Seq<u8>,
    destination: Seq<u8>,
    git_dir: Seq<u8>,
    request: RequestView,
) -> bool {
    let git = crate::path::child(destination, ".git"@);
    ||| crate::replay::reads(request)
    ||| match request {
        RequestView::CreateDirs(path) => path == git_dir,
        RequestView::RemoveTree(path) => path == git || path == git_dir,
        RequestView::RemoveFile(path) => path == git || path == git_dir,
        RequestView::WriteText(path, _) => path == git || path == crate::path::child(
            git_dir,
            "gitdir"@,
        ) || path == crate::path::child(git_dir, "commondir"@) || path == crate::path::child(
            git_dir,
            "HEAD"@,
        ),
        RequestView::CopyFile(_, path) => path == crate::path::child(git_dir, "index"@),
        RequestView::Git(PlaceView::WorkTree(path), _) => path == destination,
        RequestView::Git(PlaceView::GitDir(path), args) => path == root_git_dir && args
            == crate::worktree::worktree_list_args(),
        _ => false,
    }
}

/// The requests of that kind.
pub open spec fn registering(
    root_git_dir: Seq<u8>,
    destination: Seq<u8>,
    git_dir: Seq<u8>,
) -> spec_fn(RequestView) -> bool {
    |request: RequestView| belongs_to_registration(root_git_dir, destination, git_dir, request)
}

/// What is added by requests of a kind that takes in all that only read.
proof fn lemma_kind(kind: spec_fn(RequestView) -> bool)
    requires
        forall|request: RequestView| #[trigger] crate::replay::reads(request) ==> kind(request),
    ensures
        forall|a: Seq<RequestView>, b: Seq<RequestView>|
            #[trigger] crate::replay::adds(a, b, crate::replay::reading()) ==> crate::replay::adds(
                a,
                b,
                kind,
            ),
        forall|talk: Talk, request: RequestView|
            #![trigger talk.after(request)]
            kind(request) ==> crate::replay::adds(talk.asked, talk.after(request).asked, kind),
{
    reveal(crate::replay::adds);
    assert forall|a: Seq<RequestView>, b: Seq<RequestView>|
        #[trigger] crate::replay::adds(a, b, crate::replay::reading()) implies crate::replay::adds(
        a,
        b,
        kind,
    ) by {
        assert forall|i: int| a.len() <= i < b.len() implies kind(#[trigger] b[i]) by {
            let only = crate::replay::reading();
            assert(only(b[i]));
            assert(crate::replay::reads(b[i]));
        }
    }
}

proof fn lemma_steps_of_kind(
    steps: Seq<StepView>,
    talk: Talk,
    kind: spec_fn(RequestView) -> bool,
)
    requires
        forall|request: RequestView| #[trigger] crate::replay::reads(request) ==> kind(request),
        forall|k: int|
            0 <= k < steps.len() ==> kind(
                crate::safekeeping::request_of(#[trigger] steps[k]),
            ),
    ensures
        crate::replay::adds(
            talk.asked,
            crate::worktree::steps_run(steps, talk).talk.asked,
            kind,
        ),
    decreases steps.len(),
{
    crate::replay::lemma_one_request();
    lemma_kind(kind);
    if steps.len() > 0 {
        let first = crate::worktree::step_run(steps[0], talk);
        assert(kind(crate::safekeeping::request_of(steps[0])));
        assert(first.talk == talk.after(crate::safekeeping::request_of(steps[0])));
        lemma_steps_of_kind(steps.drop_first(), first.talk, kind);
    }
}

/// A registration concerns only the `.git` of the copy and its own metadata directory in the
/// store; the source is only read.
pub proof fn registration_keeps_to_its_places(
    root_git_dir: Seq<u8>,
    source: Seq<u8>,
    destination: Seq<u8>,
    id: Seq<char>,
    talk: Talk,
)
    ensures
        crate::replay::adds(
            talk.asked,
            crate::worktree::register_cow_clone_run(
                root_git_dir,
                source,
                destination,
                id,
                talk,
            ).talk.asked,
            registering(
                root_git_dir,
                destination,
                crate::worktree::worktree_dir_of(root_git_dir, id),
            ),
        ),
{
    let git_dir = crate::worktree::worktree_dir_of(root_git_dir, id);
    let kind = registering(root_git_dir, destination, git_dir);
    crate::replay::lemma_one_request();
    lemma_kind(kind);
    crate::replay::head_state(source);
    crate::replay::resolve_dirs(source);
    assert forall|head: HeadStateView, t: Talk| crate::replay::adds(
        t.asked,
        (#[trigger] crate::worktree::register_work_run(
            root_git_dir,
            source,
            destination,
            git_dir,
            head,
            t,
        )).talk.asked,
        kind,
    ) by {
        lemma_registration_work(root_git_dir, source, destination, git_dir, head, t);
    }
    assert forall|t: Talk| crate::replay::adds(
        t.asked,
        (#[trigger] crate::worktree::remove_registered_run(git_dir, t)).talk.asked,
        kind,
    ) by {}
}

proof fn lemma_registration_work(
    root_git_dir: Seq<u8>,
    source: Seq<u8>,
    destination: Seq<u8>,
    git_dir: Seq<u8>,
    head: HeadStateView,
    talk: Talk,
)
    ensures
        crate::replay::adds(
            talk.asked,
            crate::worktree::register_work_run(
                root_git_dir,
                source,
                destination,
                git_dir,
                head,
                talk,
            ).talk.asked,
            registering(root_git_dir, destination, git_dir),
        ),
{
    let kind = registering(root_git_dir, destination, git_dir);
    crate::replay::lemma_one_request();
    lemma_kind(kind);
    let made = talk.perform(RequestView::CreateDirs(git_dir));
    let cleared = crate::worktree::remove_copied_run(destination, made.talk);
    assert(crate::replay::adds(made.talk.asked, cleared.talk.asked, kind));
    let steps = crate::worktree::link_steps(destination, git_dir, head);
    lemma_steps_of_kind(steps, cleared.talk, kind);
    let linked = crate::worktree::steps_run(steps, cleared.talk);
    lemma_completion(root_git_dir, source, destination, git_dir, head, linked.talk);
}

proof fn lemma_completion(
    root_git_dir: Seq<u8>,
    source: Seq<u8>,
    destination: Seq<u8>,
    git_dir: Seq<u8>,
    head: HeadStateView,
    talk: Talk,
)
    ensures
        crate::replay::adds(
            talk.asked,
            crate::worktree::complete_run(
                root_git_dir,
                source,
                destination,
                git_dir,
                head,
                talk,
            ).talk.asked,
            registering(root_git_dir, destination, git_dir),
        ),
{
    let kind = registering(root_git_dir, destination, git_dir);
    crate::replay::lemma_one_request();
    lemma_kind(kind);
    crate::replay::resolve_dirs(source);
    let copied = crate::worktree::copy_source_index_run(source, git_dir, talk);
    assert(crate::replay::adds(talk.asked, copied.talk.asked, kind));
    let indexed = crate::worktree::index_run(source, destination, git_dir, head, talk);
    assert(crate::replay::adds(copied.talk.asked, indexed.talk.asked, kind));
    let valid = crate::worktree::step_run(
        crate::worktree::validate_step(destination),
        indexed.talk,
    );
    assert(crate::replay::adds(indexed.talk.asked, valid.talk.asked, kind));
}

/// Every path that ends in the name of a root and in `git`, with no step upwards, may be removed as
/// the store of that root, however it is written.
pub proof fn every_store_may_be_removed(shared_git_dir: Seq<u8>, root_id: Seq<char>)
    requires
        ({
            let all = crate::path::parts(shared_git_dir);
            &&& all.len() >= 2
            &&& all.last() == Part::Name(encode_utf8("git"@))
            &&& all[all.len() - 2] == Part::Name(encode_utf8(root_id))
            &&& !all.contains(Part::Up)
        }),
    ensures
        crate::worktree::is_store_path(shared_git_dir, root_id),
{
    let all = crate::path::parts(shared_git_dir);
    crate::path_facts::parent_drops_the_last_component(shared_git_dir);
    lemma_last_part(shared_git_dir);
    let parent = crate::path::parent_of(shared_git_dir)->0;
    lemma_last_part(parent);
    assert(all.drop_last().last() == all[all.len() - 2]);
}

/// Every path one component below the `worktrees` of a store, with no step upwards in either, may be
/// removed as the metadata of a worktree, however it is written.
pub proof fn every_worktree_may_be_removed(root_git_dir: Seq<u8>, git_dir: Seq<u8>)
    requires
        ({
            let root = crate::path::parts(root_git_dir);
            let all = crate::path::parts(git_dir);
            &&& all.len() == root.len() + 2
            &&& all.drop_last() == root.push(Part::Name(encode_utf8("worktrees"@)))
            &&& !all.contains(Part::Up)
        }),
    ensures
        crate::worktree::is_worktree_path(root_git_dir, git_dir),
{
    lemma_fixed_names();
    let root = crate::path::parts(root_git_dir);
    let all = crate::path::parts(git_dir);
    crate::path_facts::parent_drops_the_last_component(git_dir);
    crate::path_facts::join_adds_a_component(root_git_dir, encode_utf8("worktrees"@));
    if root.contains(Part::Up) {
        let k = choose|k: int| 0 <= k < root.len() && root[k] == Part::Up;
        assert(all.drop_last()[k] == Part::Up);
        assert(all[k] == Part::Up);
    }
}

} // verus!
