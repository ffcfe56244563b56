//! What holds of the registry across its operations.

use crate::error::ErrorView;
use crate::id::GitStorageMode;
use crate::order::KeyView;
use crate::tables::{
    ChangesView, MovedView, PathRecordView, RecordView, RiftView, Tables, TrashView,
};
use vstd::prelude::*;
use vstd::utf8::*;

verus! {

/// A path that has a stored text is named by that text.
pub proof fn stored_path_is_read_back(path: Seq<u8>)
    ensures
        crate::tables::path_text_of(path) is Ok <==> valid_utf8(path),
        crate::tables::path_text_of(path) matches Ok(text) ==> encode_utf8(text) == path,
        forall|text: Seq<char>|
            crate::tables::path_text_of(path) == Ok::<Seq<char>, ErrorView>(text) ==> (
            #[trigger] encode_utf8(text)) == path,
{
    if valid_utf8(path) {
        decode_utf8_encode_utf8(path);
    }
}

/// A time that fits is stored as it is.
pub proof fn time_is_stored_as_it_is(millis: u128)
    requires
        millis < 0x8000_0000_0000_0000,
    ensures
        forall|stamp: int|
            #[trigger] crate::registry::is_stamp(stamp, Some(millis)) <==> stamp == millis,
{
    assert(millis as int % 0x1_0000_0000_0000_0000 == millis);
}

/// A workspace that was inserted is found, by its id and by its path, with all that it was
/// inserted with; and the rows that were there before are still there.
pub proof fn inserted_workspace_is_read_back(
    tables: Tables,
    id: Seq<char>,
    parent_id: Option<Seq<char>>,
    path: Seq<u8>,
    mode: GitStorageMode,
    shared_git_dir: Option<Seq<u8>>,
    git_worktree_dir: Option<Seq<u8>>,
    now: int,
)
    requires
        tables.ok(),
        crate::registry::inserted(
            tables,
            id,
            parent_id,
            path,
            mode,
            shared_git_dir,
            git_worktree_dir,
            now,
        ) is Ok,
    ensures
        ({
            let next = crate::registry::inserted(
                tables,
                id,
                parent_id,
                path,
                mode,
                shared_git_dir,
                git_worktree_dir,
                now,
            )->Ok_0;
            let text = crate::tables::path_text_of(path)->Ok_0;
            let record = RecordView {
                id,
                parent_id,
                path,
                git_storage_mode: mode,
                shared_git_dir,
            };
            let places = PathRecordView { id, path, shared_git_dir, git_worktree_dir };
            &&& next.ok()
            &&& crate::tables::has_rift(next.rifts, id)
            &&& crate::tables::has_rift_path(next.rifts, text)
            &&& forall|i: int|
                0 <= i < next.rifts.len() && ((#[trigger] next.rifts[i]).id == id
                    || next.rifts[i].path == text) ==> next.rifts[i].record() == record
                    && next.rifts[i].path_record() == places && next.rifts[i].created_at == now
            &&& next.rifts.drop_last() == tables.rifts
            &&& next.trash == tables.trash
        }),
{
    let next = crate::registry::inserted(
        tables,
        id,
        parent_id,
        path,
        mode,
        shared_git_dir,
        git_worktree_dir,
        now,
    )->Ok_0;
    let row = next.rifts.last();
    crate::tables::lemma_with_rift_ok(tables, row);
    stored_path_is_read_back(path);
    if let Some(dir) = shared_git_dir {
        stored_path_is_read_back(dir);
    }
    if let Some(dir) = git_worktree_dir {
        stored_path_is_read_back(dir);
    }
    crate::id::stored_mode_is_read_back(mode);
    assert(next.rifts[next.rifts.len() - 1] == row);
    assert(next.rifts.drop_last() =~= tables.rifts);
}

/// What descends from a workspace leads to its row.
proof fn lemma_depth_reaches_top(rifts: Seq<RiftView>, i: int, top: Seq<char>)
    requires
        crate::tables::depth(rifts, i, top) is Some,
    ensures
        0 <= i < rifts.len(),
        exists|t: int| 0 <= t < rifts.len() && (#[trigger] rifts[t]).id == top,
        crate::tables::depth(rifts, i, top) == Some(0nat) <==> rifts[i].id == top,
    decreases crate::tables::depth(rifts, i, top)->0,
{
    crate::tables::lemma_depth(rifts, i, top);
    assert(crate::tables::reaches(rifts, i, top, crate::tables::depth(rifts, i, top)->0));
    crate::tables::lemma_depth_step(rifts, i, top);
    if rifts[i].id != top {
        lemma_depth_reaches_top(rifts, crate::tables::parent_at(rifts, i), top);
    }
}

/// A child is one generation further down than its parent.
proof fn lemma_child_is_deeper(rifts: Seq<RiftView>, i: int, j: int, top: Seq<char>)
    requires
        crate::tables::rifts_ok(rifts),
        !crate::tables::own_ancestor(rifts, top),
        0 <= i < rifts.len(),
        0 <= j < rifts.len(),
        rifts[i].parent_id == Some(rifts[j].id),
        crate::tables::depth(rifts, j, top) is Some,
    ensures
        i != j,
        crate::tables::depth(rifts, i, top) == Some(
            (crate::tables::depth(rifts, j, top)->0 + 1) as nat,
        ),
{
    crate::tables::lemma_parent_at(rifts, i);
    crate::tables::lemma_depth_step(rifts, i, top);
}

/// Whether one workspace was copied from another.
pub open spec fn is_child(rifts: Seq<RiftView>, child: Seq<char>, parent: Seq<char>) -> bool {
    exists|i: int|
        0 <= i < rifts.len() && (#[trigger] rifts[i]).id == child && rifts[i].parent_id == Some(
            parent,
        )
}

/// A listing of a subtree names descendants before ancestors, and no workspace twice.
pub proof fn descendants_come_before_ancestors(
    out: Seq<PathRecordView>,
    rifts: Seq<RiftView>,
    top: Seq<char>,
    least: nat,
)
    requires
        crate::tables::rifts_ok(rifts),
        !crate::tables::own_ancestor(rifts, top),
        crate::tables::lists_subtree(out, rifts, top, least),
    ensures
        forall|k: int, l: int|
            0 <= k < out.len() && 0 <= l < out.len() && is_child(
                rifts,
                (#[trigger] out[k]).id,
                (#[trigger] out[l]).id,
            ) ==> k < l,
        forall|k: int, l: int|
            0 <= k < l < out.len() ==> (#[trigger] out[k]).id != (#[trigger] out[l]).id,
{
    let key = crate::tables::deepest_first(rifts, top);
    let chosen = crate::tables::below(rifts, top, least);
    let item = |i: int| rifts[i].path_record();
    let positions = choose|positions: Seq<int>| #[trigger]
        crate::tables::lists_at(out, positions, rifts.len() as int, chosen, key, item);
    assert(crate::tables::lists_at(out, positions, rifts.len() as int, chosen, key, item));
    assert forall|k: int, l: int| 0 <= k < l < out.len() implies (#[trigger] out[k]).id != (
    #[trigger] out[l]).id by {
        let a = positions[k];
        let b = positions[l];
        crate::order::lemma_name_less_total(rifts[a].id, rifts[b].id);
        assert(a != b);
    }
    assert forall|k: int, l: int|
        0 <= k < out.len() && 0 <= l < out.len() && is_child(
            rifts,
            (#[trigger] out[k]).id,
            (#[trigger] out[l]).id,
        ) implies k < l by {
        let a = positions[k];
        let b = positions[l];
        assert(out[k].id == rifts[a].id);
        assert(out[l].id == rifts[b].id);
        let i = choose|i: int|
            0 <= i < rifts.len() && (#[trigger] rifts[i]).id == out[k].id && rifts[i].parent_id
                == Some(out[l].id);
        assert(i == a);
        lemma_child_is_deeper(rifts, a, b, top);
        if l < k {
            assert(crate::order::key_less(key(positions[l]), key(positions[k])));
        }
    }
}

/// Two sequences that hold the same positions, each by increasing key, are the same.
proof fn lemma_one_order(p: Seq<int>, q: Seq<int>, key: spec_fn(int) -> KeyView)
    requires
        forall|k: int, l: int|
            0 <= k < l < p.len() ==> crate::order::key_less(
                key(#[trigger] p[k]),
                key(#[trigger] p[l]),
            ),
        forall|k: int, l: int|
            0 <= k < l < q.len() ==> crate::order::key_less(
                key(#[trigger] q[k]),
                key(#[trigger] q[l]),
            ),
        forall|i: int| p.contains(i) <==> #[trigger] q.contains(i),
    ensures
        p == q,
    decreases p.len(),
{
    if p.len() == 0 {
        if q.len() > 0 {
            assert(q.contains(q[0]));
        }
        assert(p =~= q);
    } else {
        let a = p.last();
        assert(p.contains(p[p.len() - 1]));
        assert(q.contains(a));
        let b = q.last();
        assert(q.contains(q[q.len() - 1]));
        assert(p.contains(b));
        crate::order::lemma_name_less_total(key(a).name, key(b).name);
        let at_q = choose|k: int| 0 <= k < q.len() && q[k] == a;
        let at_p = choose|k: int| 0 <= k < p.len() && p[k] == b;
        assert(a == b) by {
            if at_q != q.len() - 1 && at_p != p.len() - 1 {
                assert(crate::order::key_less(key(q[at_q]), key(q[q.len() - 1])));
                assert(crate::order::key_less(key(p[at_p]), key(p[p.len() - 1])));
            }
        }
        let front = p.drop_last();
        let rest = q.drop_last();
        assert forall|i: int| front.contains(i) <==> #[trigger] rest.contains(i) by {
            crate::order::lemma_name_less_total(key(i).name, key(i).name);
            if front.contains(i) {
                let k = choose|k: int| 0 <= k < front.len() && front[k] == i;
                assert(p[k] == i);
                assert(p.contains(i));
                assert(crate::order::key_less(key(p[k]), key(p[p.len() - 1])));
                assert(q.contains(i));
                let l = choose|l: int| 0 <= l < q.len() && q[l] == i;
                assert(rest[l] == i);
            }
            if rest.contains(i) {
                let k = choose|k: int| 0 <= k < rest.len() && rest[k] == i;
                assert(q[k] == i);
                assert(q.contains(i));
                assert(crate::order::key_less(key(q[k]), key(q[q.len() - 1])));
                assert(p.contains(i));
                let l = choose|l: int| 0 <= l < p.len() && p[l] == i;
                assert(front[l] == i);
            }
        }
        lemma_one_order(front, rest, key);
        assert(p =~= front.push(a));
        assert(q =~= rest.push(b));
    }
}

/// There is only one way to list the chosen rows by their keys.
pub proof fn listing_is_unique<T>(
    out: Seq<T>,
    other: Seq<T>,
    n: int,
    chosen: spec_fn(int) -> bool,
    key: spec_fn(int) -> KeyView,
    item: spec_fn(int) -> T,
)
    requires
        crate::tables::lists(out, n, chosen, key, item),
        crate::tables::lists(other, n, chosen, key, item),
    ensures
        out == other,
{
    let p = choose|p: Seq<int>| #[trigger]
        crate::tables::lists_at(out, p, n, chosen, key, item);
    let q = choose|q: Seq<int>| #[trigger]
        crate::tables::lists_at(other, q, n, chosen, key, item);
    assert forall|i: int| p.contains(i) <==> #[trigger] q.contains(i) by {
        if p.contains(i) {
            let k = choose|k: int| 0 <= k < p.len() && p[k] == i;
            assert(chosen(p[k]));
        }
        if q.contains(i) {
            let k = choose|k: int| 0 <= k < q.len() && q[k] == i;
            assert(chosen(q[k]));
        }
    }
    lemma_one_order(p, q, key);
}

/// The descendants of a workspace are its subtree without the root, and in a listing of the
/// subtree the root comes last.
pub proof fn root_comes_last(
    subtree: Seq<PathRecordView>,
    descendants: Seq<PathRecordView>,
    rifts: Seq<RiftView>,
    top: Seq<char>,
)
    requires
        crate::tables::rifts_ok(rifts),
        crate::tables::has_rift(rifts, top),
        crate::tables::lists_subtree(subtree, rifts, top, 0),
        crate::tables::lists_subtree(descendants, rifts, top, 1),
    ensures
        subtree.len() > 0,
        subtree.last().id == top,
        descendants == subtree.drop_last(),
{
    let n = rifts.len() as int;
    let key = crate::tables::deepest_first(rifts, top);
    let all = crate::tables::below(rifts, top, 0);
    let lower = crate::tables::below(rifts, top, 1);
    let item = |i: int| rifts[i].path_record();
    let p = choose|p: Seq<int>| #[trigger]
        crate::tables::lists_at(subtree, p, n, all, key, item);
    assert(crate::tables::lists_at(subtree, p, n, all, key, item));
    let root = choose|i: int| 0 <= i < rifts.len() && (#[trigger] rifts[i]).id == top;
    crate::tables::lemma_depth_step(rifts, root, top);
    assert(crate::tables::depth(rifts, root, top) == Some(0nat));
    assert(all(root));
    assert(p.contains(root));
    let at = choose|k: int| 0 <= k < p.len() && p[k] == root;
    let last = p[p.len() - 1];
    assert(all(last));
    lemma_depth_reaches_top(rifts, last, top);
    if at != p.len() - 1 {
        assert(crate::order::key_less(key(p[at]), key(p[p.len() - 1])));
        assert(rifts[last].id == top);
        crate::order::lemma_name_less_total(top, top);
    }
    assert(last == root);
    let front = p.drop_last();
    assert forall|k: int| 0 <= k < front.len() implies 0 <= #[trigger] front[k] < n && lower(
        front[k],
    ) by {
        assert(front[k] == p[k]);
        assert(all(p[k]));
        lemma_depth_reaches_top(rifts, p[k], top);
        if rifts[p[k]].id == top {
            assert(crate::order::key_less(key(p[k]), key(p[p.len() - 1])));
            crate::order::lemma_name_less_total(top, top);
        }
    }
    assert forall|i: int| 0 <= i < n && #[trigger] lower(i) implies front.contains(i) by {
        assert(all(i));
        assert(p.contains(i));
        let k = choose|k: int| 0 <= k < p.len() && p[k] == i;
        assert(front[k] == i);
    }
    assert(subtree.drop_last() =~= front.map_values(item));
    assert forall|k: int, l: int| 0 <= k < l < front.len() implies crate::order::key_less(
        key(#[trigger] front[k]),
        key(#[trigger] front[l]),
    ) by {
        assert(crate::order::key_less(key(p[k]), key(p[l])));
    }
    assert(crate::tables::lists_at(subtree.drop_last(), front, n, lower, key, item));
    listing_is_unique(descendants, subtree.drop_last(), n, lower, key, item);
}

/// The rows whose ids are not among those given.
pub open spec fn kept(rifts: Seq<RiftView>, gone: Set<Seq<char>>) -> Seq<RiftView> {
    rifts.filter(|row: RiftView| !gone.contains(row.id))
}

proof fn lemma_kept_one_more(rifts: Seq<RiftView>, row: RiftView, gone: Set<Seq<char>>)
    ensures
        kept(Seq::<RiftView>::empty(), gone) == Seq::<RiftView>::empty(),
        kept(rifts.push(row), gone) == if gone.contains(row.id) {
            kept(rifts, gone)
        } else {
            kept(rifts, gone).push(row)
        },
{
    reveal(Seq::filter);
    assert(rifts.push(row).drop_last() =~= rifts);
}

/// What is left after a removal are the rows that do not descend from what was removed.
proof fn lemma_remaining_is_kept(rifts: Seq<RiftView>, top: Seq<char>, gone: Set<Seq<char>>, n: int)
    requires
        0 <= n <= rifts.len(),
        forall|i: int|
            0 <= i < rifts.len() ==> (gone.contains((#[trigger] rifts[i]).id)
                <==> crate::tables::depth(rifts, i, top) is Some),
    ensures
        crate::tables::remaining(rifts, top, n) == kept(rifts.take(n), gone),
    decreases n,
{
    if n > 0 {
        lemma_remaining_is_kept(rifts, top, gone, n - 1);
        lemma_kept_one_more(rifts.take(n - 1), rifts[n - 1], gone);
        assert(rifts.take(n) =~= rifts.take(n - 1).push(rifts[n - 1]));
    } else {
        lemma_kept_one_more(rifts, rifts[0], gone);
        assert(rifts.take(0) =~= Seq::empty());
    }
}

/// From a workspace without children nothing else descends.
proof fn lemma_leaf(rifts: Seq<RiftView>, id: Seq<char>, i: int, generations: nat)
    requires
        crate::tables::rifts_ok(rifts),
        crate::tables::reaches(rifts, i, id, generations),
        forall|j: int| 0 <= j < rifts.len() ==> (#[trigger] rifts[j]).parent_id != Some(id),
    ensures
        rifts[i].id == id,
    decreases generations,
{
    if rifts[i].id != id {
        crate::tables::lemma_parent_at(rifts, i);
        let up = crate::tables::parent_at(rifts, i);
        assert(crate::tables::reaches(rifts, up, id, (generations - 1) as nat));
        lemma_leaf(rifts, id, up, (generations - 1) as nat);
        assert(0 <= up);
    }
}

/// Removing a workspace without children takes away its row alone.
proof fn lemma_remove_leaf(tables: Tables, id: Seq<char>)
    requires
        tables.ok(),
        forall|j: int|
            0 <= j < tables.rifts.len() ==> (#[trigger] tables.rifts[j]).parent_id != Some(id),
    ensures
        tables.without_rift(id).rifts == kept(tables.rifts, set![id]),
{
    let rifts = tables.rifts;
    assert forall|i: int| 0 <= i < rifts.len() implies (set![id].contains((#[trigger] rifts[i]).id)
        <==> crate::tables::depth(rifts, i, id) is Some) by {
        crate::tables::lemma_depth(rifts, i, id);
        crate::tables::lemma_depth_step(rifts, i, id);
        if let Some(generations) = crate::tables::depth(rifts, i, id) {
            assert(crate::tables::reaches(rifts, i, id, generations));
            lemma_leaf(rifts, id, i, generations);
        }
    }
    lemma_remaining_is_kept(rifts, id, set![id], rifts.len() as int);
    assert(rifts.take(rifts.len() as int) =~= rifts);
}

/// Each row is kept or gone, and no row comes to be by keeping.
proof fn lemma_kept_rows(rifts: Seq<RiftView>, gone: Set<Seq<char>>)
    ensures
        kept(rifts, gone).len() <= rifts.len(),
        forall|k: int|
            0 <= k < kept(rifts, gone).len() ==> exists|i: int|
                0 <= i < rifts.len() && #[trigger] rifts[i] == (#[trigger] kept(rifts, gone)[k])
                    && !gone.contains(rifts[i].id),
        forall|i: int|
            0 <= i < rifts.len() && !gone.contains((#[trigger] rifts[i]).id) ==> kept(
                rifts,
                gone,
            ).contains(rifts[i]),
    decreases rifts.len(),
{
    if rifts.len() == 0 {
        assert(rifts =~= Seq::empty());
        lemma_kept_one_more(rifts, rifts[0], gone);
    } else {
        let front = rifts.drop_last();
        let row = rifts.last();
        lemma_kept_rows(front, gone);
        lemma_kept_one_more(front, row, gone);
        assert(rifts =~= front.push(row));
        let before = kept(front, gone);
        let out = kept(rifts, gone);
        assert forall|k: int| 0 <= k < out.len() implies exists|i: int|
            0 <= i < rifts.len() && #[trigger] rifts[i] == (#[trigger] out[k]) && !gone.contains(
                rifts[i].id,
            ) by {
            if k < before.len() {
                assert(out[k] == before[k]);
                let i = choose|i: int|
                    0 <= i < front.len() && #[trigger] front[i] == before[k] && !gone.contains(
                        front[i].id,
                    );
                assert(rifts[i] == out[k]);
            } else {
                assert(rifts[rifts.len() - 1] == out[k]);
            }
        }
        assert forall|i: int|
            0 <= i < rifts.len() && !gone.contains((#[trigger] rifts[i]).id) implies out.contains(
            rifts[i],
        ) by {
            if i < front.len() {
                assert(front[i] == rifts[i]);
                assert(before.contains(front[i]));
                let k = choose|k: int| 0 <= k < before.len() && before[k] == front[i];
                assert(out[k] == rifts[i]);
            } else {
                assert(out[out.len() - 1] == rifts[i]);
            }
        }
    }
}

/// Taking ids away one after the other takes all of them away.
proof fn lemma_kept_twice(rifts: Seq<RiftView>, a: Set<Seq<char>>, b: Set<Seq<char>>)
    ensures
        kept(kept(rifts, a), b) == kept(rifts, a.union(b)),
    decreases rifts.len(),
{
    if rifts.len() == 0 {
        assert(rifts =~= Seq::empty());
        lemma_kept_one_more(rifts, rifts[0], a);
        lemma_kept_one_more(rifts, rifts[0], b);
        lemma_kept_one_more(rifts, rifts[0], a.union(b));
    } else {
        let front = rifts.drop_last();
        let row = rifts.last();
        lemma_kept_twice(front, a, b);
        assert(rifts =~= front.push(row));
        lemma_kept_one_more(front, row, a);
        lemma_kept_one_more(front, row, a.union(b));
        lemma_kept_one_more(kept(front, a), row, b);
    }
}

/// Removing a workspace removes just the rows of its subtree, and leaves the trash alone.
pub proof fn removal_takes_the_subtree(tables: Tables, id: Seq<char>)
    requires
        tables.ok(),
    ensures
        tables.without_rift(id).ok(),
        tables.without_rift(id).trash == tables.trash,
        !crate::tables::has_rift(tables.without_rift(id).rifts, id),
        forall|i: int|
            0 <= i < tables.rifts.len() ==> (crate::tables::has_rift(
                tables.without_rift(id).rifts,
                (#[trigger] tables.rifts[i]).id,
            ) <==> crate::tables::depth(tables.rifts, i, id) is None),
        !crate::tables::has_rift(tables.rifts, id) ==> tables.without_rift(id) == tables,
{
    let rifts = tables.rifts;
    let n = rifts.len() as int;
    let left = tables.without_rift(id).rifts;
    crate::tables::lemma_without_rift_ok(tables, id);
    crate::tables::lemma_remaining_rows(rifts, id, n);
    assert forall|i: int| 0 <= i < n implies (crate::tables::has_rift(
        left,
        (#[trigger] rifts[i]).id,
    ) <==> crate::tables::depth(rifts, i, id) is None) by {
        if crate::tables::has_rift(left, rifts[i].id) {
            let k = choose|k: int| 0 <= k < left.len() && (#[trigger] left[k]).id == rifts[i].id;
            let j = choose|j: int|
                0 <= j < n && #[trigger] rifts[j] == left[k] && crate::tables::depth(rifts, j, id)
                    is None;
            assert(i == j);
        }
        if crate::tables::depth(rifts, i, id) is None {
            assert(left.contains(rifts[i]));
            let k = choose|k: int| 0 <= k < left.len() && left[k] == rifts[i];
            assert(left[k].id == rifts[i].id);
        }
    }
    if crate::tables::has_rift(left, id) {
        let k = choose|k: int| 0 <= k < left.len() && (#[trigger] left[k]).id == id;
        let j = choose|j: int|
            0 <= j < n && #[trigger] rifts[j] == left[k] && crate::tables::depth(rifts, j, id)
                is None;
        crate::tables::lemma_depth_step(rifts, j, id);
    }
    if !crate::tables::has_rift(rifts, id) {
        assert forall|i: int| 0 <= i < n implies (Set::<Seq<char>>::empty().contains(
            (#[trigger] rifts[i]).id,
        ) <==> crate::tables::depth(rifts, i, id) is Some) by {
            if crate::tables::depth(rifts, i, id) is Some {
                lemma_depth_reaches_top(rifts, i, id);
            }
        }
        lemma_remaining_is_kept(rifts, id, Set::empty(), n);
        assert(rifts.take(n) =~= rifts);
        lemma_all_kept(rifts);
    }
}

proof fn lemma_all_kept(rifts: Seq<RiftView>)
    ensures
        kept(rifts, Set::empty()) == rifts,
    decreases rifts.len(),
{
    if rifts.len() == 0 {
        assert(rifts =~= Seq::empty());
        lemma_kept_one_more(rifts, rifts[0], Set::empty());
    } else {
        let front = rifts.drop_last();
        lemma_all_kept(front);
        lemma_kept_one_more(front, rifts.last(), Set::empty());
        assert(rifts =~= front.push(rifts.last()));
    }
}

/// A workspace that is moved to the trash is found there, at its new path and with its Git
/// metadata, and no longer among those in use.
pub proof fn trashed_workspace_keeps_its_metadata(
    tables: Tables,
    moved: MovedView,
    now: int,
    i: int,
)
    requires
        tables.ok(),
        0 <= i < tables.rifts.len(),
        tables.rifts[i].id == moved.id,
        tables.trash_one(moved, now) is Ok,
    ensures
        ({
            let next = tables.trash_one(moved, now)->Ok_0;
            let before = tables.rifts[i].path_record();
            &&& next.ok()
            &&& next.trash.drop_last() == tables.trash
            &&& next.trash.last().path_record() == (PathRecordView {
                id: moved.id,
                path: moved.trash_path,
                shared_git_dir: before.shared_git_dir,
                git_worktree_dir: before.git_worktree_dir,
            })
            &&& next.trash.last().removed_at == now
            &&& next.rifts == tables.without_rift(moved.id).rifts
            &&& !crate::tables::has_rift(next.rifts, moved.id)
        }),
{
    let n = tables.rifts.len() as int;
    crate::tables::lemma_find_before(tables.rifts, moved.id, n);
    assert(tables.rifts.take(n) =~= tables.rifts);
    let at = crate::tables::find_before(tables.rifts, moved.id, n);
    assert(at == i);
    crate::tables::lemma_trash_one_ok(tables, moved, now);
    stored_path_is_read_back(moved.trash_path);
    removal_takes_the_subtree(tables, moved.id);
    let next = tables.trash_one(moved, now)->Ok_0;
    assert(next.trash.drop_last() =~= tables.trash);
}

/// Whether ids are listed such that each comes behind those of its children.
pub open spec fn children_first(rifts: Seq<RiftView>, ids: Seq<Seq<char>>) -> bool {
    &&& forall|k: int, l: int| 0 <= k < l < ids.len() ==> #[trigger] ids[k] != #[trigger] ids[l]
    &&& forall|k: int| 0 <= k < ids.len() ==> crate::tables::has_rift(rifts, #[trigger] ids[k])
    &&& forall|i: int, l: int|
        0 <= i < rifts.len() && 0 <= l < ids.len() && (#[trigger] rifts[i]).parent_id == Some(
            #[trigger] ids[l],
        ) ==> ids.take(l).contains(rifts[i].id)
}

/// The subtree lists name children first.
proof fn lemma_listing_names_children_first(
    out: Seq<PathRecordView>,
    rifts: Seq<RiftView>,
    top: Seq<char>,
    least: nat,
)
    requires
        crate::tables::rifts_ok(rifts),
        !crate::tables::own_ancestor(rifts, top),
        crate::tables::lists_subtree(out, rifts, top, least),
    ensures
        children_first(rifts, crate::tables::listed_ids(out)),
        forall|i: int|
            0 <= i < rifts.len() ==> (crate::tables::listed_ids(out).contains(
                (#[trigger] rifts[i]).id,
            ) <==> crate::tables::below(rifts, top, least)(i)),
{
    let ids = crate::tables::listed_ids(out);
    let key = crate::tables::deepest_first(rifts, top);
    let chosen = crate::tables::below(rifts, top, least);
    let item = |i: int| rifts[i].path_record();
    let n = rifts.len() as int;
    let positions = choose|positions: Seq<int>| #[trigger]
        crate::tables::lists_at(out, positions, n, chosen, key, item);
    assert(crate::tables::lists_at(out, positions, n, chosen, key, item));
    descendants_come_before_ancestors(out, rifts, top, least);
    assert forall|k: int, l: int| 0 <= k < l < ids.len() implies #[trigger] ids[k]
        != #[trigger] ids[l] by {
        assert(out[k].id != out[l].id);
    }
    assert forall|k: int| 0 <= k < ids.len() implies crate::tables::has_rift(
        rifts,
        #[trigger] ids[k],
    ) by {
        assert(rifts[positions[k]].id == ids[k]);
    }
    assert forall|i: int| 0 <= i < n implies (ids.contains((#[trigger] rifts[i]).id) <==> chosen(
        i,
    )) by {
        if ids.contains(rifts[i].id) {
            let k = choose|k: int| 0 <= k < ids.len() && ids[k] == rifts[i].id;
            assert(rifts[positions[k]].id == rifts[i].id);
            assert(positions[k] == i);
            assert(chosen(positions[k]));
        }
        if chosen(i) {
            assert(positions.contains(i));
            let k = choose|k: int| 0 <= k < positions.len() && positions[k] == i;
            assert(ids[k] == rifts[i].id);
        }
    }
    assert forall|i: int, l: int|
        0 <= i < n && 0 <= l < ids.len() && (#[trigger] rifts[i]).parent_id == Some(
            #[trigger] ids[l],
        ) implies ids.take(l).contains(rifts[i].id) by {
        let j = positions[l];
        assert(chosen(positions[l]));
        assert(rifts[j].id == ids[l]);
        lemma_child_is_deeper(rifts, i, j, top);
        assert(chosen(i));
        assert(ids.contains(rifts[i].id));
        let k = choose|k: int| 0 <= k < ids.len() && ids[k] == rifts[i].id;
        assert(out[k].id == rifts[i].id);
        assert(is_child(rifts, out[k].id, out[l].id));
        assert(k < l);
        assert(ids.take(l)[k] == rifts[i].id);
    }
}

/// Once the first of the ids is gone, the others are still listed children first.
proof fn lemma_children_first_rest(tables: Tables, ids: Seq<Seq<char>>)
    requires
        tables.ok(),
        ids.len() > 0,
        children_first(tables.rifts, ids),
    ensures
        tables.without_rift(ids[0]).rifts == kept(tables.rifts, set![ids[0]]),
        children_first(tables.without_rift(ids[0]).rifts, ids.drop_first()),
{
    let rifts = tables.rifts;
    let id = ids[0];
    assert forall|j: int| 0 <= j < rifts.len() implies (#[trigger] rifts[j]).parent_id != Some(
        id,
    ) by {
        if rifts[j].parent_id == Some(ids[0]) {
            assert(ids.take(0).contains(rifts[j].id));
        }
    }
    lemma_remove_leaf(tables, id);
    let left = tables.without_rift(id).rifts;
    let rest = ids.drop_first();
    lemma_kept_rows(rifts, set![id]);
    assert forall|k: int| 0 <= k < rest.len() implies crate::tables::has_rift(
        left,
        #[trigger] rest[k],
    ) by {
        assert(rest[k] == ids[k + 1]);
        assert(crate::tables::has_rift(rifts, ids[k + 1]));
        let i = choose|i: int| 0 <= i < rifts.len() && (#[trigger] rifts[i]).id == ids[k + 1];
        assert(ids[0] != ids[k + 1]);
        assert(left.contains(rifts[i]));
        let at = choose|at: int| 0 <= at < left.len() && left[at] == rifts[i];
        assert(left[at].id == rest[k]);
    }
    assert forall|i: int, l: int|
        0 <= i < left.len() && 0 <= l < rest.len() && (#[trigger] left[i]).parent_id == Some(
            #[trigger] rest[l],
        ) implies rest.take(l).contains(left[i].id) by {
        let j = choose|j: int|
            0 <= j < rifts.len() && #[trigger] rifts[j] == left[i] && !set![id].contains(
                rifts[j].id,
            );
        assert(rest[l] == ids[l + 1]);
        let front = ids.take(l + 1);
        assert(front.contains(rifts[j].id));
        let k = choose|k: int| 0 <= k < front.len() && front[k] == rifts[j].id;
        assert(k > 0);
        assert(rest.take(l)[k - 1] == left[i].id);
    }
}

proof fn lemma_without_all(tables: Tables, ids: Seq<Seq<char>>)
    requires
        tables.ok(),
        children_first(tables.rifts, ids),
    ensures
        tables.without_all(ids).rifts == kept(tables.rifts, ids.to_set()),
        tables.without_all(ids).trash == tables.trash,
    decreases ids.len(),
{
    if ids.len() == 0 {
        lemma_all_kept(tables.rifts);
        assert(ids.to_set() =~= Set::empty());
    } else {
        let next = tables.without_rift(ids[0]);
        let rest = ids.drop_first();
        crate::tables::lemma_without_rift_ok(tables, ids[0]);
        lemma_children_first_rest(tables, ids);
        lemma_without_all(next, rest);
        lemma_kept_twice(tables.rifts, set![ids[0]], rest.to_set());
        lemma_set_of_rest(ids);
    }
}

proof fn lemma_set_of_rest(ids: Seq<Seq<char>>)
    requires
        ids.len() > 0,
    ensures
        set![ids[0]].union(ids.drop_first().to_set()) == ids.to_set(),
{
    let rest = ids.drop_first();
    assert forall|id: Seq<char>| #[trigger] ids.to_set().contains(id) <==> set![ids[0]].union(
        rest.to_set(),
    ).contains(id) by {
        if ids.contains(id) {
            let k = choose|k: int| 0 <= k < ids.len() && ids[k] == id;
            if k > 0 {
                assert(rest[k - 1] == id);
            }
        }
        if rest.contains(id) {
            let k = choose|k: int| 0 <= k < rest.len() && rest[k] == id;
            assert(ids[k + 1] == id);
        }
        if id == ids[0] {
            assert(ids.contains(ids[0]));
        }
    }
    assert(set![ids[0]].union(rest.to_set()) =~= ids.to_set());
}

/// To remove one by one what a listing of a subtree names is to remove the subtree.
pub proof fn removing_a_listed_subtree(tables: Tables, out: Seq<PathRecordView>, top: Seq<char>)
    requires
        tables.ok(),
        !crate::tables::own_ancestor(tables.rifts, top),
        crate::tables::lists_subtree(out, tables.rifts, top, 0),
    ensures
        tables.without_all(crate::tables::listed_ids(out)) == tables.without_rift(top),
{
    let ids = crate::tables::listed_ids(out);
    let n = tables.rifts.len() as int;
    lemma_listing_names_children_first(out, tables.rifts, top, 0);
    lemma_without_all(tables, ids);
    lemma_remaining_is_kept(tables.rifts, top, ids.to_set(), n);
    assert(tables.rifts.take(n) =~= tables.rifts);
}

/// Whether the trash took over a workspace as it was.
pub open spec fn taken_over(
    trashed: TrashView,
    rifts: Seq<RiftView>,
    moved: MovedView,
    now: int,
) -> bool {
    exists|i: int|
        0 <= i < rifts.len() && (#[trigger] rifts[i]).id == moved.id && trashed
            == crate::tables::trashed_row(
            rifts[i],
            crate::tables::path_text_of(moved.trash_path)->Ok_0,
            now,
        )
}

proof fn lemma_trash_all(tables: Tables, moved: Seq<MovedView>, times: Seq<int>)
    requires
        tables.ok(),
        moved.len() == times.len(),
        children_first(tables.rifts, moved_ids(moved)),
        tables.trash_all(moved, times) is Ok,
    ensures
        ({
            let next = tables.trash_all(moved, times)->Ok_0;
            let kept_trash = tables.trash.len() as int;
            &&& next.ok()
            &&& next.rifts == kept(tables.rifts, moved_ids(moved).to_set())
            &&& next.trash.len() == kept_trash + moved.len()
            &&& next.trash.take(kept_trash) == tables.trash
            &&& forall|k: int|
                0 <= k < moved.len() ==> taken_over(
                    #[trigger] next.trash[kept_trash + k],
                    tables.rifts,
                    moved[k],
                    times[k],
                )
        }),
    decreases moved.len(),
{
    let ids = moved_ids(moved);
    let rifts = tables.rifts;
    let size = tables.trash.len() as int;
    if moved.len() == 0 {
        lemma_all_kept(rifts);
        assert(ids.to_set() =~= Set::empty());
        assert(tables.trash.take(size) =~= tables.trash);
    } else {
        let after = tables.trash_one(moved[0], times[0])->Ok_0;
        let next = tables.trash_all(moved, times)->Ok_0;
        let rest = moved.drop_first();
        let later = times.drop_first();
        assert(crate::tables::has_rift(rifts, ids[0]));
        let i = choose|i: int| 0 <= i < rifts.len() && (#[trigger] rifts[i]).id == ids[0];
        trashed_workspace_keeps_its_metadata(tables, moved[0], times[0], i);
        lemma_children_first_rest(tables, ids);
        assert(moved_ids(rest) =~= ids.drop_first());
        lemma_trash_all(after, rest, later);
        lemma_kept_twice(rifts, set![ids[0]], moved_ids(rest).to_set());
        lemma_set_of_rest(ids);
        lemma_kept_rows(rifts, set![ids[0]]);
        let n = rifts.len() as int;
        crate::tables::lemma_find_before(rifts, moved[0].id, n);
        assert(rifts.take(n) =~= rifts);
        assert(next.trash.take(size) =~= tables.trash) by {
            assert(next.trash.take(size + 1) == after.trash);
            assert(next.trash.take(size) =~= after.trash.drop_last());
        }
        assert forall|k: int| 0 <= k < moved.len() implies taken_over(
            #[trigger] next.trash[size + k],
            rifts,
            moved[k],
            times[k],
        ) by {
            if k == 0 {
                assert(next.trash[size] == next.trash.take(size + 1)[size]);
                assert(next.trash[size] == after.trash.last());
                assert(rifts[i].id == moved[0].id);
            } else {
                assert(taken_over(
                    next.trash[size + 1 + (k - 1)],
                    after.rifts,
                    rest[k - 1],
                    later[k - 1],
                ));
                let j = choose|j: int|
                    0 <= j < after.rifts.len() && (#[trigger] after.rifts[j]).id == rest[k - 1].id
                        && next.trash[size + k] == crate::tables::trashed_row(
                        after.rifts[j],
                        crate::tables::path_text_of(rest[k - 1].trash_path)->Ok_0,
                        later[k - 1],
                    );
                assert(exists|m: int|
                    0 <= m < rifts.len() && #[trigger] rifts[m] == kept(rifts, set![ids[0]])[j]
                        && !set![ids[0]].contains(rifts[m].id));
                let m = choose|m: int|
                    0 <= m < rifts.len() && #[trigger] rifts[m] == kept(rifts, set![ids[0]])[j]
                        && !set![ids[0]].contains(rifts[m].id);
                assert(rifts[m] == after.rifts[j]);
            }
        }
    }
}

/// The ids of moved workspaces.
pub open spec fn moved_ids(moved: Seq<MovedView>) -> Seq<Seq<char>> {
    moved.map_values(|record: MovedView| record.id)
}

/// Moving what a listing of a subtree names, in its order, moves every workspace of it to the
/// trash with its Git metadata, and takes nothing else out of use. None is lost because its parent
/// went first.
pub proof fn moving_a_listed_subtree_loses_nothing(
    tables: Tables,
    out: Seq<PathRecordView>,
    top: Seq<char>,
    least: nat,
    moved: Seq<MovedView>,
    times: Seq<int>,
)
    requires
        tables.ok(),
        !crate::tables::own_ancestor(tables.rifts, top),
        crate::tables::lists_subtree(out, tables.rifts, top, least),
        moved_ids(moved) == crate::tables::listed_ids(out),
        moved.len() == times.len(),
        tables.trash_all(moved, times) is Ok,
    ensures
        ({
            let next = tables.trash_all(moved, times)->Ok_0;
            let before = tables.trash.len() as int;
            &&& next.ok()
            &&& next.trash.take(before) == tables.trash
            &&& next.trash.len() == before + moved.len()
            &&& forall|k: int|
                0 <= k < moved.len() ==> taken_over(
                    #[trigger] next.trash[before + k],
                    tables.rifts,
                    moved[k],
                    times[k],
                )
            &&& next.rifts == kept(tables.rifts, crate::tables::listed_ids(out).to_set())
            &&& forall|i: int|
                0 <= i < tables.rifts.len() ==> (crate::tables::listed_ids(out).to_set().contains(
                    (#[trigger] tables.rifts[i]).id,
                ) <==> crate::tables::below(tables.rifts, top, least)(i))
        }),
{
    lemma_listing_names_children_first(out, tables.rifts, top, least);
    lemma_trash_all(tables, moved, times);
}

/// Whether there is room in the trash for what is moved: every path there has a text, no two are
/// the same, and neither ids nor paths are in the trash already.
pub open spec fn room_for(trash: Seq<TrashView>, moved: Seq<MovedView>) -> bool {
    &&& forall|k: int|
        0 <= k < moved.len() ==> valid_utf8((#[trigger] moved[k]).trash_path)
            && !crate::tables::has_trash(trash, moved[k].id) && !crate::tables::has_trash_path(
            trash,
            decode_utf8(moved[k].trash_path),
        )
    &&& forall|k: int, l: int|
        0 <= k < l < moved.len() ==> (#[trigger] moved[k]).trash_path != (
        #[trigger] moved[l]).trash_path
}

proof fn lemma_trash_all_succeeds(tables: Tables, moved: Seq<MovedView>, times: Seq<int>)
    requires
        tables.ok(),
        moved.len() == times.len(),
        children_first(tables.rifts, moved_ids(moved)),
        room_for(tables.trash, moved),
    ensures
        tables.trash_all(moved, times) is Ok,
    decreases moved.len(),
{
    if moved.len() > 0 {
        let ids = moved_ids(moved);
        let rifts = tables.rifts;
        assert(crate::tables::has_rift(rifts, ids[0]));
        let i = choose|i: int| 0 <= i < rifts.len() && (#[trigger] rifts[i]).id == ids[0];
        let n = rifts.len() as int;
        crate::tables::lemma_find_before(rifts, moved[0].id, n);
        assert(rifts.take(n) =~= rifts);
        assert(valid_utf8(moved[0].trash_path));
        assert(tables.trash_one(moved[0], times[0]) is Ok);
        trashed_workspace_keeps_its_metadata(tables, moved[0], times[0], i);
        let after = tables.trash_one(moved[0], times[0])->Ok_0;
        let rest = moved.drop_first();
        lemma_children_first_rest(tables, ids);
        assert(moved_ids(rest) =~= ids.drop_first());
        let row = after.trash.last();
        assert(after.trash =~= tables.trash.push(row));
        assert forall|k: int| 0 <= k < rest.len() implies valid_utf8(
            (#[trigger] rest[k]).trash_path,
        ) && !crate::tables::has_trash(after.trash, rest[k].id) && !crate::tables::has_trash_path(
            after.trash,
            decode_utf8(rest[k].trash_path),
        ) by {
            assert(rest[k] == moved[k + 1]);
            assert(ids[0] != ids[k + 1]);
            assert(moved[0].trash_path != moved[k + 1].trash_path);
            stored_path_is_read_back(moved[0].trash_path);
            stored_path_is_read_back(moved[k + 1].trash_path);
        }
        assert forall|k: int, l: int| 0 <= k < l < rest.len() implies (
        #[trigger] rest[k]).trash_path != (#[trigger] rest[l]).trash_path by {
            assert(rest[k] == moved[k + 1] && rest[l] == moved[l + 1]);
        }
        lemma_trash_all_succeeds(after, rest, times.drop_first());
    }
}

/// Moving what a listing of a subtree names, in its order, succeeds where there is room for it in
/// the trash.
pub proof fn moving_a_listed_subtree_succeeds(
    tables: Tables,
    out: Seq<PathRecordView>,
    top: Seq<char>,
    least: nat,
    moved: Seq<MovedView>,
    times: Seq<int>,
)
    requires
        tables.ok(),
        !crate::tables::own_ancestor(tables.rifts, top),
        crate::tables::lists_subtree(out, tables.rifts, top, least),
        moved_ids(moved) == crate::tables::listed_ids(out),
        moved.len() == times.len(),
        room_for(tables.trash, moved),
    ensures
        tables.trash_all(moved, times) is Ok,
{
    lemma_listing_names_children_first(out, tables.rifts, top, least);
    lemma_trash_all_succeeds(tables, moved, times);
}

/// The ids of all workspaces that are among those given or descend from one of them.
pub open spec fn with_descendants(rifts: Seq<RiftView>, ids: Seq<Seq<char>>) -> Set<Seq<char>> {
    Set::new(
        |id: Seq<char>|
            exists|i: int, m: int|
                0 <= i < rifts.len() && 0 <= m < ids.len() && (#[trigger] rifts[i]).id == id
                    && crate::tables::depth(rifts, i, #[trigger] ids[m]) is Some,
    )
}

/// The way up from a row that stays is the same after a removal.
proof fn lemma_same_way(
    rifts: Seq<RiftView>,
    gone: Seq<char>,
    top: Seq<char>,
    i: int,
    k: int,
    generations: nat,
)
    requires
        crate::tables::rifts_ok(rifts),
        0 <= i < rifts.len(),
        crate::tables::depth(rifts, i, gone) is None,
        ({
            let left = crate::tables::remaining(rifts, gone, rifts.len() as int);
            0 <= k < left.len() && left[k] == rifts[i]
        }),
    ensures
        crate::tables::reaches(rifts, i, top, generations) == crate::tables::reaches(
            crate::tables::remaining(rifts, gone, rifts.len() as int),
            k,
            top,
            generations,
        ),
    decreases generations,
{
    let n = rifts.len() as int;
    let left = crate::tables::remaining(rifts, gone, n);
    crate::tables::lemma_remaining_ok(rifts, gone, n);
    crate::tables::lemma_remaining_rows(rifts, gone, n);
    crate::tables::lemma_parent_at(rifts, i);
    crate::tables::lemma_parent_at(left, k);
    crate::tables::lemma_depth_step(rifts, i, gone);
    let up = crate::tables::parent_at(rifts, i);
    let left_up = crate::tables::parent_at(left, k);
    if rifts[i].id != top && generations > 0 {
        let fewer = (generations - 1) as nat;
        if up >= 0 {
            assert(crate::tables::depth(rifts, up, gone) is None);
            assert(left.contains(rifts[up]));
            let m = choose|m: int| 0 <= m < left.len() && left[m] == rifts[up];
            assert(left[m].id == rifts[up].id);
            assert(left_up == m);
            lemma_same_way(rifts, gone, top, up, m, fewer);
        } else {
            if left_up >= 0 {
                let j = choose|j: int|
                    0 <= j < n && #[trigger] rifts[j] == left[left_up] && crate::tables::depth(
                        rifts,
                        j,
                        gone,
                    ) is None;
                assert(rifts[j].id == left[left_up].id);
            }
            assert(!crate::tables::reaches(rifts, up, top, fewer));
            assert(!crate::tables::reaches(left, left_up, top, fewer));
        }
    }
}

proof fn lemma_kept_same(rifts: Seq<RiftView>, a: Set<Seq<char>>, b: Set<Seq<char>>)
    requires
        forall|i: int|
            0 <= i < rifts.len() ==> (a.contains((#[trigger] rifts[i]).id) <==> b.contains(
                rifts[i].id,
            )),
    ensures
        kept(rifts, a) == kept(rifts, b),
    decreases rifts.len(),
{
    if rifts.len() == 0 {
        assert(rifts =~= Seq::empty());
        lemma_kept_one_more(rifts, rifts[0], a);
        lemma_kept_one_more(rifts, rifts[0], b);
    } else {
        let front = rifts.drop_last();
        let row = rifts.last();
        assert(rifts =~= front.push(row));
        assert forall|i: int| 0 <= i < front.len() implies (a.contains((#[trigger] front[i]).id)
            <==> b.contains(front[i].id)) by {
            assert(front[i] == rifts[i]);
        }
        assert(row == rifts[rifts.len() - 1]);
        lemma_kept_same(front, a, b);
        lemma_kept_one_more(front, row, a);
        lemma_kept_one_more(front, row, b);
    }
}

/// Removing workspaces one by one, in any order and however often each is named, removes those
/// named and all that descend from them, and nothing else.
pub proof fn removing_any_list(tables: Tables, ids: Seq<Seq<char>>)
    requires
        tables.ok(),
    ensures
        tables.without_all(ids).rifts == kept(tables.rifts, with_descendants(tables.rifts, ids)),
        tables.without_all(ids).trash == tables.trash,
    decreases ids.len(),
{
    let rifts = tables.rifts;
    let n = rifts.len() as int;
    let all = with_descendants(rifts, ids);
    if ids.len() == 0 {
        lemma_all_kept(rifts);
        lemma_kept_same(rifts, Set::empty(), all);
    } else {
        let first = with_descendants(rifts, ids.take(1));
        let next = tables.without_rift(ids[0]);
        let rest = ids.drop_first();
        let later = with_descendants(next.rifts, rest);
        crate::tables::lemma_without_rift_ok(tables, ids[0]);
        crate::tables::lemma_remaining_rows(rifts, ids[0], n);
        assert(ids.take(1)[0] == ids[0]);
        assert forall|i: int| 0 <= i < n implies (first.contains((#[trigger] rifts[i]).id)
            <==> crate::tables::depth(rifts, i, ids[0]) is Some) by {
            if first.contains(rifts[i].id) {
                let (j, m) = choose|j: int, m: int|
                    0 <= j < n && 0 <= m < ids.take(1).len() && (#[trigger] rifts[j]).id
                        == rifts[i].id && crate::tables::depth(
                        rifts,
                        j,
                        #[trigger] ids.take(1)[m],
                    ) is Some;
                assert(j == i);
            }
            if crate::tables::depth(rifts, i, ids[0]) is Some {
                assert(crate::tables::depth(rifts, i, ids.take(1)[0]) is Some);
            }
        }
        lemma_remaining_is_kept(rifts, ids[0], first, n);
        assert(rifts.take(n) =~= rifts);
        removing_any_list(next, rest);
        lemma_kept_twice(rifts, first, later);
        assert forall|i: int| 0 <= i < n implies (first.union(later).contains(
            (#[trigger] rifts[i]).id,
        ) <==> all.contains(rifts[i].id)) by {
            lemma_one_of_list(tables, ids, i);
        }
        lemma_kept_same(rifts, first.union(later), all);
    }
}

/// Whether a row goes with a list of removals is decided by the first of them, or else by the
/// others on what it leaves.
proof fn lemma_one_of_list(tables: Tables, ids: Seq<Seq<char>>, i: int)
    requires
        tables.ok(),
        ids.len() > 0,
        0 <= i < tables.rifts.len(),
    ensures
        ({
            let rifts = tables.rifts;
            let next = tables.without_rift(ids[0]);
            let here = with_descendants(rifts, ids.take(1)).contains(rifts[i].id);
            let later = with_descendants(next.rifts, ids.drop_first()).contains(rifts[i].id);
            (here || later) <==> with_descendants(rifts, ids).contains(rifts[i].id)
        }),
{
    let rifts = tables.rifts;
    let n = rifts.len() as int;
    let left = tables.without_rift(ids[0]).rifts;
    let rest = ids.drop_first();
    let one = ids.take(1);
    let id = rifts[i].id;
    assert(one[0] == ids[0]);
    crate::tables::lemma_without_rift_ok(tables, ids[0]);
    crate::tables::lemma_remaining_rows(rifts, ids[0], n);
    if with_descendants(rifts, one).contains(id) {
        let (j, m) = choose|j: int, m: int|
            0 <= j < n && 0 <= m < one.len() && (#[trigger] rifts[j]).id == id
                && crate::tables::depth(rifts, j, #[trigger] one[m]) is Some;
        assert(crate::tables::depth(rifts, j, ids[0]) is Some);
    }
    if with_descendants(left, rest).contains(id) {
        let (k, m) = choose|k: int, m: int|
            0 <= k < left.len() && 0 <= m < rest.len() && (#[trigger] left[k]).id == id
                && crate::tables::depth(left, k, #[trigger] rest[m]) is Some;
        let j = choose|j: int|
            0 <= j < n && #[trigger] rifts[j] == left[k] && crate::tables::depth(rifts, j, ids[0])
                is None;
        lemma_same_depth(rifts, ids[0], rest[m], j, k);
        assert(rest[m] == ids[m + 1]);
        assert(crate::tables::depth(rifts, j, ids[m + 1]) is Some);
    }
    if with_descendants(rifts, ids).contains(id) {
        let (j, m) = choose|j: int, m: int|
            0 <= j < n && 0 <= m < ids.len() && (#[trigger] rifts[j]).id == id
                && crate::tables::depth(rifts, j, #[trigger] ids[m]) is Some;
        if crate::tables::depth(rifts, j, ids[0]) is Some {
            assert(crate::tables::depth(rifts, j, one[0]) is Some);
        } else {
            assert(left.contains(rifts[j]));
            let k = choose|k: int| 0 <= k < left.len() && left[k] == rifts[j];
            lemma_same_depth(rifts, ids[0], ids[m], j, k);
            assert(rest[m - 1] == ids[m]);
            assert(left[k].id == id);
            assert(crate::tables::depth(left, k, rest[m - 1]) is Some);
        }
    }
}

proof fn lemma_same_depth(rifts: Seq<RiftView>, gone: Seq<char>, top: Seq<char>, i: int, k: int)
    requires
        crate::tables::rifts_ok(rifts),
        0 <= i < rifts.len(),
        crate::tables::depth(rifts, i, gone) is None,
        ({
            let left = crate::tables::remaining(rifts, gone, rifts.len() as int);
            0 <= k < left.len() && left[k] == rifts[i]
        }),
    ensures
        crate::tables::depth(rifts, i, top) == crate::tables::depth(
            crate::tables::remaining(rifts, gone, rifts.len() as int),
            k,
            top,
        ),
{
    let left = crate::tables::remaining(rifts, gone, rifts.len() as int);
    crate::tables::lemma_depth(rifts, i, top);
    crate::tables::lemma_depth(left, k, top);
    if let Some(generations) = crate::tables::depth(rifts, i, top) {
        assert(crate::tables::reaches(rifts, i, top, generations));
        lemma_same_way(rifts, gone, top, i, k, generations);
    }
    if let Some(generations) = crate::tables::depth(left, k, top) {
        assert(crate::tables::reaches(left, k, top, generations));
        lemma_same_way(rifts, gone, top, i, k, generations);
    }
}

/// The tables after the rows that are gone have been removed, each by its id, and the new ones
/// have been added at the end.
pub open spec fn carried_out(tables: Tables, changes: ChangesView) -> Tables {
    Tables {
        rifts: tables.rifts.filter(
            |row: RiftView| !crate::tables::has_rift(changes.removed_rifts, row.id),
        ) + changes.added_rifts,
        trash: tables.trash.filter(
            |row: TrashView| !crate::tables::has_trash(changes.removed_trash, row.id),
        ) + changes.added_trash,
    }
}

/// An operation that changes the tables.
pub enum Step {
    Insert(RiftView),
    Delete(Seq<char>),
    DeleteAll(Seq<Seq<char>>),
    DeleteTrash(Seq<char>),
    Trash(Seq<MovedView>, Seq<int>),
}

/// What an operation makes of the tables.
pub open spec fn stepped(tables: Tables, step: Step) -> Result<Tables, ErrorView> {
    match step {
        Step::Insert(row) => tables.with_rift(row),
        Step::Delete(id) => Ok(tables.without_rift(id)),
        Step::DeleteAll(ids) => Ok(tables.without_all(ids)),
        Step::DeleteTrash(id) => Ok(tables.without_trash(id)),
        Step::Trash(moved, times) => tables.trash_all(moved, times),
    }
}

proof fn lemma_filter_keeps_all<T>(rows: Seq<T>, stays: spec_fn(T) -> bool)
    requires
        forall|i: int| 0 <= i < rows.len() ==> stays(#[trigger] rows[i]),
    ensures
        rows.filter(stays) == rows,
    decreases rows.len(),
{
    reveal(Seq::filter);
    if rows.len() > 0 {
        lemma_filter_keeps_all(rows.drop_last(), stays);
        assert(stays(rows[rows.len() - 1]));
        assert(rows.drop_last().push(rows.last()) =~= rows);
    } else {
        assert(rows.filter(stays) =~= rows);
    }
}

proof fn lemma_same_filter<T>(rows: Seq<T>, a: spec_fn(T) -> bool, b: spec_fn(T) -> bool)
    requires
        forall|i: int| 0 <= i < rows.len() ==> a(#[trigger] rows[i]) == b(rows[i]),
    ensures
        rows.filter(a) == rows.filter(b),
    decreases rows.len(),
{
    reveal(Seq::filter);
    if rows.len() > 0 {
        assert(a(rows[rows.len() - 1]) == b(rows[rows.len() - 1]));
        lemma_same_filter(rows.drop_last(), a, b);
    }
}

/// Rows of which some go and to which others are added are told apart by their ids.
proof fn lemma_rifts_told_apart(
    before: Seq<RiftView>,
    stays: spec_fn(RiftView) -> bool,
    added: Seq<RiftView>,
)
    requires
        crate::tables::rifts_ok(before),
        forall|k: int|
            0 <= k < added.len() ==> !crate::tables::has_rift(before, (#[trigger] added[k]).id),
    ensures
        ({
            let after = before.filter(stays) + added;
            let gone = crate::tables::rifts_missing(before, after);
            &&& crate::tables::rifts_missing(after, before) == added
            &&& before.filter(|row: RiftView| !crate::tables::has_rift(gone, row.id))
                == before.filter(stays)
            &&& forall|i: int|
                0 <= i < before.len() ==> (crate::tables::has_rift(gone, (#[trigger] before[i]).id)
                    <==> !stays(before[i]))
        }),
{
    broadcast use {
        Seq::lemma_filter_pred,
        Seq::lemma_filter_contains,
        Seq::lemma_filter_contains_rev,
        Seq::filter_distributes_over_add,
    };

    let left = before.filter(stays);
    let after = left + added;
    let gone = crate::tables::rifts_missing(before, after);
    let lost = |row: RiftView| !crate::tables::has_rift(after, row.id);
    let fresh = |row: RiftView| !crate::tables::has_rift(before, row.id);
    assert forall|k: int| 0 <= k < left.len() implies !fresh(#[trigger] left[k]) by {
        assert(left.contains(left[k]));
        assert(before.contains(left[k]));
    }
    left.lemma_all_neg_filter_empty(fresh);
    lemma_filter_keeps_all(added, fresh);
    assert(left.filter(fresh) + added =~= added);
    assert forall|i: int| 0 <= i < before.len() implies (crate::tables::has_rift(
        gone,
        (#[trigger] before[i]).id,
    ) <==> !stays(before[i])) by {
        let row = before[i];
        if stays(row) {
            assert(left.contains(row));
            let k = choose|k: int| 0 <= k < left.len() && left[k] == row;
            assert(after[k].id == row.id);
            if crate::tables::has_rift(gone, row.id) {
                let m = choose|m: int| 0 <= m < gone.len() && (#[trigger] gone[m]).id == row.id;
                assert(lost(gone[m]));
            }
        } else {
            if crate::tables::has_rift(after, row.id) {
                let k = choose|k: int| 0 <= k < after.len() && (#[trigger] after[k]).id == row.id;
                if k < left.len() {
                    assert(left[k] == after[k]);
                    assert(left.contains(left[k]));
                    assert(before.contains(left[k]));
                    let j = choose|j: int| 0 <= j < before.len() && before[j] == left[k];
                    assert(before[j].id == before[i].id);
                    assert(stays(left[k]));
                } else {
                    assert(added[k - left.len()] == after[k]);
                }
            }
            assert(lost(before[i]));
            assert(gone.contains(row));
            let m = choose|m: int| 0 <= m < gone.len() && gone[m] == row;
            assert(gone[m].id == row.id);
        }
    }
    lemma_same_filter(
        before,
        |row: RiftView| !crate::tables::has_rift(gone, row.id),
        stays,
    );
}

proof fn lemma_trash_told_apart(
    before: Seq<TrashView>,
    stays: spec_fn(TrashView) -> bool,
    added: Seq<TrashView>,
)
    requires
        crate::tables::trash_ok(before),
        forall|k: int|
            0 <= k < added.len() ==> !crate::tables::has_trash(before, (#[trigger] added[k]).id),
    ensures
        ({
            let after = before.filter(stays) + added;
            let gone = crate::tables::trash_missing(before, after);
            &&& crate::tables::trash_missing(after, before) == added
            &&& before.filter(|row: TrashView| !crate::tables::has_trash(gone, row.id))
                == before.filter(stays)
        }),
{
    broadcast use {
        Seq::lemma_filter_pred,
        Seq::lemma_filter_contains,
        Seq::lemma_filter_contains_rev,
        Seq::filter_distributes_over_add,
    };

    let left = before.filter(stays);
    let after = left + added;
    let gone = crate::tables::trash_missing(before, after);
    let lost = |row: TrashView| !crate::tables::has_trash(after, row.id);
    let fresh = |row: TrashView| !crate::tables::has_trash(before, row.id);
    assert forall|k: int| 0 <= k < left.len() implies !fresh(#[trigger] left[k]) by {
        assert(left.contains(left[k]));
        assert(before.contains(left[k]));
    }
    left.lemma_all_neg_filter_empty(fresh);
    lemma_filter_keeps_all(added, fresh);
    assert(left.filter(fresh) + added =~= added);
    assert forall|i: int| 0 <= i < before.len() implies (crate::tables::has_trash(
        gone,
        (#[trigger] before[i]).id,
    ) <==> !stays(before[i])) by {
        let row = before[i];
        if stays(row) {
            assert(left.contains(row));
            let k = choose|k: int| 0 <= k < left.len() && left[k] == row;
            assert(after[k].id == row.id);
            if crate::tables::has_trash(gone, row.id) {
                let m = choose|m: int| 0 <= m < gone.len() && (#[trigger] gone[m]).id == row.id;
                assert(lost(gone[m]));
            }
        } else {
            if crate::tables::has_trash(after, row.id) {
                let k = choose|k: int| 0 <= k < after.len() && (#[trigger] after[k]).id == row.id;
                if k < left.len() {
                    assert(left[k] == after[k]);
                    assert(left.contains(left[k]));
                    assert(before.contains(left[k]));
                    let j = choose|j: int| 0 <= j < before.len() && before[j] == left[k];
                    assert(before[j].id == before[i].id);
                    assert(stays(left[k]));
                } else {
                    assert(added[k - left.len()] == after[k]);
                }
            }
            assert(lost(before[i]));
            assert(gone.contains(row));
            let m = choose|m: int| 0 <= m < gone.len() && gone[m] == row;
            assert(gone[m].id == row.id);
        }
    }
    lemma_same_filter(
        before,
        |row: TrashView| !crate::tables::has_trash(gone, row.id),
        stays,
    );
}

/// Moving workspaces to the trash takes their rows away as removing them does, and adds rows to
/// the trash.
proof fn lemma_trash_all_adds(tables: Tables, moved: Seq<MovedView>, times: Seq<int>)
    requires
        tables.ok(),
        tables.trash_all(moved, times) is Ok,
    ensures
        ({
            let next = tables.trash_all(moved, times)->Ok_0;
            &&& next.ok()
            &&& next.rifts == tables.without_all(moved_ids(moved)).rifts
            &&& tables.trash.len() <= next.trash.len()
            &&& next.trash.take(tables.trash.len() as int) == tables.trash
        }),
    decreases moved.len(),
{
    let ids = moved_ids(moved);
    let next = tables.trash_all(moved, times)->Ok_0;
    if moved.len() == 0 {
        assert(next.trash.take(tables.trash.len() as int) =~= tables.trash);
    } else {
        let one = tables.trash_one(moved[0], times[0])->Ok_0;
        crate::tables::lemma_trash_one_ok(tables, moved[0], times[0]);
        lemma_trash_all_adds(one, moved.drop_first(), times.drop_first());
        assert(moved_ids(moved.drop_first()) =~= ids.drop_first());
        assert(ids[0] == moved[0].id);
        let bare = tables.without_rift(ids[0]);
        crate::tables::lemma_without_rift_ok(tables, ids[0]);
        removing_any_list(one, ids.drop_first());
        removing_any_list(bare, ids.drop_first());
        let n = tables.trash.len() as int;
        assert(one.trash.take(n) =~= tables.trash);
        assert(next.trash.take(n) =~= next.trash.take(one.trash.len() as int).take(n));
    }
}

/// Whether no row is left whose parent is among those that are gone, so that removing these takes
/// no others with it.
pub open spec fn no_child_stays(before: Seq<RiftView>, gone: Seq<RiftView>) -> bool {
    forall|i: int, j: int|
        0 <= i < before.len() && 0 <= j < gone.len() && (#[trigger] before[i]).parent_id == Some(
            (#[trigger] gone[j]).id,
        ) ==> crate::tables::has_rift(gone, before[i].id)
}

proof fn lemma_nothing_gone(before: Seq<RiftView>, after: Seq<RiftView>)
    requires
        forall|i: int|
            0 <= i < before.len() ==> !crate::tables::has_rift(
                crate::tables::rifts_missing(before, after),
                (#[trigger] before[i]).id,
            ),
    ensures
        no_child_stays(before, crate::tables::rifts_missing(before, after)),
{
    broadcast use Seq::lemma_filter_contains_rev;

    let gone = crate::tables::rifts_missing(before, after);
    if gone.len() > 0 {
        assert(gone.contains(gone[0]));
        assert(before.contains(gone[0]));
        let i = choose|i: int| 0 <= i < before.len() && before[i] == gone[0];
        assert(before[i].id == gone[0].id);
    }
}

/// The changes of an operation that removes workspaces and may add to the trash.
proof fn lemma_list_carried_out(
    before: Tables,
    ids: Seq<Seq<char>>,
    after: Tables,
    added: Seq<TrashView>,
)
    requires
        before.ok(),
        after.rifts == before.without_all(ids).rifts,
        after.trash == before.trash + added,
        forall|k: int|
            0 <= k < added.len() ==> !crate::tables::has_trash(
                before.trash,
                (#[trigger] added[k]).id,
            ),
    ensures
        carried_out(before, after.changes_from(before)) == after,
        no_child_stays(before.rifts, after.changes_from(before).removed_rifts),
{
    broadcast use Seq::lemma_filter_contains_rev;

    let rifts = before.rifts;
    let all = with_descendants(rifts, ids);
    let stays = |row: RiftView| !all.contains(row.id);
    let all_trash = |row: TrashView| true;
    removing_any_list(before, ids);
    lemma_filter_keeps_all(before.trash, all_trash);
    assert(kept(rifts, all) + Seq::<RiftView>::empty() =~= kept(rifts, all));
    lemma_rifts_told_apart(rifts, stays, Seq::empty());
    lemma_trash_told_apart(before.trash, all_trash, added);
    let gone = after.changes_from(before).removed_rifts;
    assert forall|i: int, j: int|
        0 <= i < rifts.len() && 0 <= j < gone.len() && (#[trigger] rifts[i]).parent_id == Some(
            (#[trigger] gone[j]).id,
        ) implies crate::tables::has_rift(gone, rifts[i].id) by {
        assert(gone.contains(gone[j]));
        assert(rifts.contains(gone[j]));
        let up = choose|up: int| 0 <= up < rifts.len() && rifts[up] == gone[j];
        assert(crate::tables::has_rift(gone, rifts[up].id));
        assert(all.contains(rifts[up].id));
        let (a, m) = choose|a: int, m: int|
            0 <= a < rifts.len() && 0 <= m < ids.len() && (#[trigger] rifts[a]).id == rifts[up].id
                && crate::tables::depth(rifts, a, #[trigger] ids[m]) is Some;
        assert(a == up);
        crate::tables::lemma_parent_at(rifts, i);
        crate::tables::lemma_depth_step(rifts, i, ids[m]);
        assert(crate::tables::depth(rifts, i, ids[m]) is Some);
        assert(all.contains(rifts[i].id));
    }
}

proof fn lemma_insertion_carried_out(before: Tables, row: RiftView, after: Tables)
    requires
        before.ok(),
        before.with_rift(row) == Ok::<Tables, ErrorView>(after),
    ensures
        carried_out(before, after.changes_from(before)) == after,
        no_child_stays(before.rifts, after.changes_from(before).removed_rifts),
{
    let all_rifts = |row: RiftView| true;
    let all_trash = |row: TrashView| true;
    let no_trash = Seq::<TrashView>::empty();
    lemma_filter_keeps_all(before.rifts, all_rifts);
    lemma_filter_keeps_all(before.trash, all_trash);
    assert(after.rifts =~= before.rifts + seq![row]);
    assert(after.trash =~= before.trash + no_trash);
    lemma_rifts_told_apart(before.rifts, all_rifts, seq![row]);
    lemma_trash_told_apart(before.trash, all_trash, no_trash);
    lemma_nothing_gone(before.rifts, after.rifts);
}

proof fn lemma_emptying_carried_out(before: Tables, id: Seq<char>)
    requires
        before.ok(),
    ensures
        ({
            let after = before.without_trash(id);
            &&& carried_out(before, after.changes_from(before)) == after
            &&& no_child_stays(before.rifts, after.changes_from(before).removed_rifts)
        }),
{
    let after = before.without_trash(id);
    let all_rifts = |row: RiftView| true;
    let others = |row: TrashView| row.id != id;
    lemma_filter_keeps_all(before.rifts, all_rifts);
    assert(after.rifts =~= before.rifts + Seq::<RiftView>::empty());
    assert(after.trash =~= before.trash.filter(others) + Seq::<TrashView>::empty());
    lemma_rifts_told_apart(before.rifts, all_rifts, Seq::empty());
    lemma_trash_told_apart(before.trash, others, Seq::empty());
    lemma_nothing_gone(before.rifts, after.rifts);
}

proof fn lemma_moving_carried_out(
    before: Tables,
    moved: Seq<MovedView>,
    times: Seq<int>,
    after: Tables,
)
    requires
        before.ok(),
        before.trash_all(moved, times) == Ok::<Tables, ErrorView>(after),
    ensures
        carried_out(before, after.changes_from(before)) == after,
        no_child_stays(before.rifts, after.changes_from(before).removed_rifts),
{
    lemma_trash_all_adds(before, moved, times);
    let n = before.trash.len() as int;
    let added = after.trash.skip(n);
    assert(after.trash =~= before.trash + added);
    assert forall|k: int| 0 <= k < added.len() implies !crate::tables::has_trash(
        before.trash,
        (#[trigger] added[k]).id,
    ) by {
        if crate::tables::has_trash(before.trash, added[k].id) {
            let j = choose|j: int| 0 <= j < n && (#[trigger] before.trash[j]).id == added[k].id;
            assert(after.trash.take(n)[j] == after.trash[j]);
            assert(after.trash[j].id == after.trash[n + k].id);
        }
    }
    lemma_list_carried_out(before, moved_ids(moved), after, added);
}

/// What has to be written after an operation makes of the stored rows just what the operation
/// made of its own, in the same order.
pub proof fn changes_bring_stored_rows_up_to_date(before: Tables, step: Step)
    requires
        before.ok(),
        stepped(before, step) is Ok,
    ensures
        ({
            let after = stepped(before, step)->Ok_0;
            let changes = after.changes_from(before);
            &&& carried_out(before, changes) == after
            &&& no_child_stays(before.rifts, changes.removed_rifts)
        }),
{
    let after = stepped(before, step)->Ok_0;
    let no_trash = Seq::<TrashView>::empty();
    match step {
        Step::Insert(row) => lemma_insertion_carried_out(before, row, after),
        Step::Delete(id) => {
            let ids = seq![id];
            assert(ids.drop_first() =~= Seq::empty());
            assert(after == before.without_all(ids)) by {
                reveal_with_fuel(Tables::without_all, 2);
            }
            assert(after.trash =~= before.trash + no_trash);
            lemma_list_carried_out(before, ids, after, no_trash);
        },
        Step::DeleteAll(ids) => {
            removing_any_list(before, ids);
            assert(after.trash =~= before.trash + no_trash);
            lemma_list_carried_out(before, ids, after, no_trash);
        },
        Step::DeleteTrash(id) => lemma_emptying_carried_out(before, id),
        Step::Trash(moved, times) => lemma_moving_carried_out(before, moved, times, after),
    }
}

/// Whether every workspace that has a parent has it in the registry.
pub open spec fn parents_known(rifts: Seq<RiftView>) -> bool {
    forall|i: int|
        0 <= i < rifts.len() ==> ((#[trigger] rifts[i]).parent_id matches Some(parent)
            ==> crate::tables::has_rift(rifts, parent))
}

/// Removing workspaces leaves no other one without its parent.
proof fn lemma_parents_stay(tables: Tables, ids: Seq<Seq<char>>)
    requires
        tables.ok(),
        parents_known(tables.rifts),
    ensures
        parents_known(tables.without_all(ids).rifts),
{
    let rifts = tables.rifts;
    let all = with_descendants(rifts, ids);
    let left = tables.without_all(ids).rifts;
    removing_any_list(tables, ids);
    lemma_kept_rows(rifts, all);
    assert forall|k: int| 0 <= k < left.len() implies ((#[trigger] left[k]).parent_id matches Some(
        parent,
    ) ==> crate::tables::has_rift(left, parent)) by {
        if let Some(parent) = left[k].parent_id {
            let i = choose|i: int|
                0 <= i < rifts.len() && #[trigger] rifts[i] == left[k] && !all.contains(
                    rifts[i].id,
                );
            assert(crate::tables::has_rift(rifts, parent));
            let up = choose|up: int| 0 <= up < rifts.len() && (#[trigger] rifts[up]).id == parent;
            if all.contains(parent) {
                let (a, m) = choose|a: int, m: int|
                    0 <= a < rifts.len() && 0 <= m < ids.len() && (#[trigger] rifts[a]).id
                        == parent && crate::tables::depth(rifts, a, #[trigger] ids[m]) is Some;
                assert(a == up);
                crate::tables::lemma_parent_at(rifts, i);
                crate::tables::lemma_depth_step(rifts, i, ids[m]);
                assert(crate::tables::depth(rifts, i, ids[m]) is Some);
                assert(all.contains(rifts[i].id));
            }
            assert(left.contains(rifts[up]));
            let l = choose|l: int| 0 <= l < left.len() && left[l] == rifts[up];
            assert(left[l].id == parent);
        }
    }
}

/// No operation leaves a workspace without its parent. An empty registry has none such, so there is
/// none after any number of operations.
pub proof fn parents_stay_known(tables: Tables, step: Step)
    requires
        tables.ok(),
        parents_known(tables.rifts),
        stepped(tables, step) is Ok,
    ensures
        parents_known(stepped(tables, step)->Ok_0.rifts),
        parents_known(Seq::empty()),
{
    let after = stepped(tables, step)->Ok_0;
    match step {
        Step::Insert(row) => {
            assert forall|i: int| 0 <= i < after.rifts.len() implies (
            (#[trigger] after.rifts[i]).parent_id matches Some(parent) ==> crate::tables::has_rift(
                after.rifts,
                parent,
            )) by {
                if let Some(parent) = after.rifts[i].parent_id {
                    let n = tables.rifts.len() as int;
                    if i < n {
                        assert(after.rifts[i] == tables.rifts[i]);
                    }
                    if crate::tables::has_rift(tables.rifts, parent) {
                        let j = choose|j: int|
                            0 <= j < n && (#[trigger] tables.rifts[j]).id == parent;
                        assert(after.rifts[j].id == parent);
                    } else {
                        assert(after.rifts[n].id == parent);
                    }
                }
            }
        },
        Step::Delete(id) => {
            let ids = seq![id];
            assert(ids.drop_first() =~= Seq::empty());
            assert(after == tables.without_all(ids)) by {
                reveal_with_fuel(Tables::without_all, 2);
            }
            lemma_parents_stay(tables, ids);
        },
        Step::DeleteAll(ids) => lemma_parents_stay(tables, ids),
        Step::DeleteTrash(id) => {},
        Step::Trash(moved, times) => {
            lemma_trash_all_adds(tables, moved, times);
            lemma_parents_stay(tables, moved_ids(moved));
        },
    }
}


/// A clock that stands before the epoch gives zero, and of two times that fit the later one never
/// gets the smaller stamp, nor the same.
pub proof fn later_times_get_later_stamps(sooner: u128, later: u128)
    requires
        sooner < later < 0x8000_0000_0000_0000,
    ensures
        forall|stamp: int| #[trigger] crate::registry::is_stamp(stamp, None) <==> stamp == 0,
        forall|a: int, b: int| #[trigger]
            crate::registry::is_stamp(a, Some(sooner)) && #[trigger] crate::registry::is_stamp(
                b,
                Some(later),
            ) ==> 0 <= a < b,
{
    time_is_stored_as_it_is(sooner);
    time_is_stored_as_it_is(later);
}

} // verus!
