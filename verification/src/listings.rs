//! What the listings of the registry hold, and in which order.

use crate::error::ErrorView;
use crate::tables::{MovedView, PathRecordView, RiftView, Tables, TrashView};
use vstd::prelude::*;
use vstd::utf8::*;

verus! {

/// Whether one byte string comes before another in a dictionary: they agree up to some place, and
/// there the first one ends, or holds the smaller byte.
pub open spec fn earlier_bytes(a: Seq<u8>, b: Seq<u8>) -> bool {
    exists|p: int|
        0 <= p <= a.len() && p < b.len() && #[trigger] a.take(p) == b.take(p) && (p == a.len()
            || a[p] < b[p])
}

/// Names are ordered as a dictionary orders their bytes.
pub proof fn names_are_ordered_by_their_bytes(a: Seq<u8>, b: Seq<u8>)
    ensures
        crate::order::bytes_less(a, b) <==> earlier_bytes(a, b),
    decreases a.len(),
{
    if b.len() > 0 && a.len() == 0 {
        assert(a.take(0) =~= b.take(0));
    } else if b.len() > 0 && a[0] != b[0] {
        if a[0] < b[0] {
            assert(a.take(0) =~= b.take(0));
        }
        if earlier_bytes(a, b) {
            let p = choose|p: int|
                0 <= p <= a.len() && p < b.len() && #[trigger] a.take(p) == b.take(p) && (p
                    == a.len() || a[p] < b[p]);
            if p > 0 {
                assert(a.take(p)[0] == b.take(p)[0]);
            }
        }
    } else if b.len() > 0 {
        let c = a.drop_first();
        let d = b.drop_first();
        names_are_ordered_by_their_bytes(c, d);
        if earlier_bytes(c, d) {
            let p = choose|p: int|
                0 <= p <= c.len() && p < d.len() && #[trigger] c.take(p) == d.take(p) && (p
                    == c.len() || c[p] < d[p]);
            assert(a.take(p + 1) =~= seq![a[0]] + c.take(p));
            assert(b.take(p + 1) =~= seq![b[0]] + d.take(p));
        }
        if earlier_bytes(a, b) {
            let p = choose|p: int|
                0 <= p <= a.len() && p < b.len() && #[trigger] a.take(p) == b.take(p) && (p
                    == a.len() || a[p] < b[p]);
            assert(p > 0);
            assert(c.take(p - 1) =~= a.take(p).drop_first());
            assert(d.take(p - 1) =~= b.take(p).drop_first());
        }
    }
}

/// Whether one name comes before another.
pub open spec fn earlier(a: Seq<char>, b: Seq<char>) -> bool {
    earlier_bytes(encode_utf8(a), encode_utf8(b))
}

/// Whether places name those of the first `n` rows that are chosen, each once.
pub open spec fn names_each_once(
    places: Seq<int>,
    n: int,
    chosen: spec_fn(int) -> bool,
) -> bool {
    &&& forall|k: int|
        0 <= k < places.len() ==> 0 <= #[trigger] places[k] < n && chosen(places[k])
    &&& forall|i: int| 0 <= i < n && #[trigger] chosen(i) ==> places.contains(i)
    &&& forall|k: int, l: int|
        0 <= k < l < places.len() ==> #[trigger] places[k] != #[trigger] places[l]
}

/// Whether places name the children of a workspace, each once, in the order of a listing of their
/// paths: those made earlier before those made later, and those made at the same time by name.
pub open spec fn children_at(
    out: Seq<Seq<u8>>,
    places: Seq<int>,
    rifts: Seq<RiftView>,
    parent: Seq<char>,
) -> bool {
    &&& names_each_once(
        places,
        rifts.len() as int,
        |i: int| rifts[i].parent_id == Some(parent),
    )
    &&& out.len() == places.len()
    &&& forall|k: int|
        0 <= k < out.len() ==> #[trigger] out[k] == encode_utf8(rifts[places[k]].path)
    &&& forall|k: int, l: int|
        0 <= k < l < places.len() ==> {
            let a = rifts[#[trigger] places[k]];
            let b = rifts[#[trigger] places[l]];
            a.created_at < b.created_at || (a.created_at == b.created_at && earlier(a.id, b.id))
        }
}

/// The children of a workspace are all listed, each once, by their paths: those made earlier before
/// those made later, and those made at the same time by name.
pub proof fn children_are_listed_by_age(
    out: Seq<Seq<u8>>,
    rifts: Seq<RiftView>,
    parent: Seq<char>,
)
    requires
        crate::tables::lists_children(out, rifts, parent),
    ensures
        exists|places: Seq<int>| #[trigger] children_at(out, places, rifts, parent),
{
    let n = rifts.len() as int;
    let chosen = |i: int| rifts[i].parent_id == Some(parent);
    let key = |i: int| crate::order::KeyView { rank: rifts[i].created_at, name: rifts[i].id };
    let item = |i: int| encode_utf8(rifts[i].path);
    let places = choose|places: Seq<int>| #[trigger]
        crate::tables::lists_at(out, places, n, chosen, key, item);
    assert(crate::tables::lists_at(out, places, n, chosen, key, item));
    lemma_places(out, places, n, chosen, key, item);
    assert(children_at(out, places, rifts, parent));
}

/// What places in a listing have in common, whatever they are ordered by.
proof fn lemma_places<T>(
    out: Seq<T>,
    places: Seq<int>,
    n: int,
    chosen: spec_fn(int) -> bool,
    key: spec_fn(int) -> crate::order::KeyView,
    item: spec_fn(int) -> T,
)
    requires
        crate::tables::lists_at(out, places, n, chosen, key, item),
    ensures
        names_each_once(places, n, chosen),
        forall|k: int, l: int|
            0 <= k < l < places.len() ==> {
                let a = key(#[trigger] places[k]);
                let b = key(#[trigger] places[l]);
                a.rank < b.rank || (a.rank == b.rank && earlier(a.name, b.name))
            },
{
    assert forall|k: int, l: int| 0 <= k < l < places.len() implies {
        let a = key(#[trigger] places[k]);
        let b = key(#[trigger] places[l]);
        &&& a.rank < b.rank || (a.rank == b.rank && earlier(a.name, b.name))
        &&& places[k] != places[l]
    } by {
        let a = key(places[k]);
        let b = key(places[l]);
        assert(crate::order::key_less(a, b));
        names_are_ordered_by_their_bytes(encode_utf8(a.name), encode_utf8(b.name));
        crate::order::lemma_name_less_total(a.name, a.name);
    }
}

/// Of two children the one that was made earlier is listed first.
pub proof fn older_children_come_first(
    out: Seq<Seq<u8>>,
    rifts: Seq<RiftView>,
    parent: Seq<char>,
    i: int,
    j: int,
)
    requires
        crate::tables::lists_children(out, rifts, parent),
        0 <= i < rifts.len(),
        0 <= j < rifts.len(),
        rifts[i].parent_id == Some(parent),
        rifts[j].parent_id == Some(parent),
        rifts[i].created_at < rifts[j].created_at,
    ensures
        exists|k: int, l: int|
            0 <= k < l < out.len() && #[trigger] out[k] == encode_utf8(rifts[i].path)
                && #[trigger] out[l] == encode_utf8(rifts[j].path),
{
    children_are_listed_by_age(out, rifts, parent);
    let chosen = |i: int| rifts[i].parent_id == Some(parent);
    let places = choose|places: Seq<int>| #[trigger] children_at(out, places, rifts, parent);
    assert(chosen(i) && chosen(j));
    assert(places.contains(i) && places.contains(j));
    let k = choose|k: int| 0 <= k < places.len() && places[k] == i;
    let l = choose|l: int| 0 <= l < places.len() && places[l] == j;
    assert(out[k] == encode_utf8(rifts[i].path));
    assert(out[l] == encode_utf8(rifts[j].path));
    if l < k {
        assert(rifts[places[l]].created_at <= rifts[places[k]].created_at);
    }
    assert(k < l);
}

/// Whether places name the rows of the trash, each once, in the order of a listing: what was removed
/// earlier before what was removed later, and what was removed at the same time by name.
pub open spec fn trash_at(
    out: Seq<PathRecordView>,
    places: Seq<int>,
    trash: Seq<TrashView>,
) -> bool {
    &&& names_each_once(places, trash.len() as int, |i: int| true)
    &&& out.len() == places.len()
    &&& forall|k: int|
        0 <= k < out.len() ==> {
            let row = trash[places[k]];
            &&& (#[trigger] out[k]).id == row.id
            &&& out[k].path == encode_utf8(row.path)
            &&& out[k].shared_git_dir == path_of(row.shared_git_dir)
            &&& out[k].git_worktree_dir == path_of(row.git_worktree_dir)
        }
    &&& forall|k: int, l: int|
        0 <= k < l < places.len() ==> {
            let a = trash[#[trigger] places[k]];
            let b = trash[#[trigger] places[l]];
            a.removed_at < b.removed_at || (a.removed_at == b.removed_at && earlier(a.id, b.id))
        }
}

/// The trash is listed whole, each row once: what was removed earlier before what was removed later,
/// and what was removed at the same time by name.
pub proof fn trash_is_listed_by_age(out: Seq<PathRecordView>, trash: Seq<TrashView>)
    requires
        crate::tables::lists_trash(out, trash),
    ensures
        exists|places: Seq<int>| #[trigger] trash_at(out, places, trash),
{
    let n = trash.len() as int;
    let chosen = |i: int| true;
    let key = |i: int| crate::order::KeyView { rank: trash[i].removed_at, name: trash[i].id };
    let item = |i: int| trash[i].path_record();
    let places = choose|places: Seq<int>| #[trigger]
        crate::tables::lists_at(out, places, n, chosen, key, item);
    assert(crate::tables::lists_at(out, places, n, chosen, key, item));
    lemma_places(out, places, n, chosen, key, item);
    assert(trash_at(out, places, trash));
}

/// The path that a stored text stands for: its bytes.
pub open spec fn path_of(text: Option<Seq<char>>) -> Option<Seq<u8>> {
    match text {
        Some(text) => Some(encode_utf8(text)),
        None => None,
    }
}

/// Whether ids lead from the first workspace to the last, each but the last a copy of the next.
pub open spec fn chain(rifts: Seq<RiftView>, ids: Seq<Seq<char>>) -> bool {
    &&& ids.len() > 0
    &&& crate::tables::has_rift(rifts, ids.last())
    &&& forall|k: int|
        0 <= k < ids.len() - 1 ==> crate::registry_facts::is_child(
            rifts,
            #[trigger] ids[k],
            ids[k + 1],
        )
}

/// Whether a workspace is another one, or was copied from it, directly or by way of others.
pub open spec fn descends(rifts: Seq<RiftView>, id: Seq<char>, top: Seq<char>) -> bool {
    exists|ids: Seq<Seq<char>>| #[trigger] chain(rifts, ids) && ids[0] == id && ids.last() == top
}

proof fn lemma_chain_of_reach(rifts: Seq<RiftView>, i: int, top: Seq<char>, generations: nat)
    requires
        crate::tables::rifts_ok(rifts),
        crate::tables::reaches(rifts, i, top, generations),
    ensures
        descends(rifts, rifts[i].id, top),
    decreases generations,
{
    if rifts[i].id == top {
        assert(chain(rifts, seq![top]));
    } else {
        crate::tables::lemma_parent_at(rifts, i);
        let up = crate::tables::parent_at(rifts, i);
        assert(crate::tables::reaches(rifts, up, top, (generations - 1) as nat));
        lemma_chain_of_reach(rifts, up, top, (generations - 1) as nat);
        let rest = choose|ids: Seq<Seq<char>>| #[trigger]
            chain(rifts, ids) && ids[0] == rifts[up].id && ids.last() == top;
        let ids = seq![rifts[i].id] + rest;
        assert(crate::registry_facts::is_child(rifts, rifts[i].id, rifts[up].id));
        assert forall|k: int| 0 <= k < ids.len() - 1 implies crate::registry_facts::is_child(
            rifts,
            #[trigger] ids[k],
            ids[k + 1],
        ) by {
            if k > 0 {
                assert(ids[k] == rest[k - 1] && ids[k + 1] == rest[k]);
                assert(crate::registry_facts::is_child(rifts, rest[k - 1], rest[k - 1 + 1]));
            }
        }
        assert(ids.last() == rest.last());
        assert(chain(rifts, ids));
    }
}

proof fn lemma_reach_of_chain(rifts: Seq<RiftView>, i: int, ids: Seq<Seq<char>>)
    requires
        crate::tables::rifts_ok(rifts),
        chain(rifts, ids),
        0 <= i < rifts.len(),
        rifts[i].id == ids[0],
    ensures
        crate::tables::depth(rifts, i, ids.last()) is Some,
        !crate::tables::own_ancestor(rifts, ids.last()) ==> crate::tables::depth(
            rifts,
            i,
            ids.last(),
        ) == Some((ids.len() - 1) as nat),
    decreases ids.len(),
{
    let top = ids.last();
    crate::tables::lemma_depth_step(rifts, i, top);
    if ids.len() > 1 {
        assert(crate::registry_facts::is_child(rifts, ids[0], ids[1]));
        let a = choose|a: int|
            0 <= a < rifts.len() && (#[trigger] rifts[a]).id == ids[0] && rifts[a].parent_id
                == Some(ids[1]);
        assert(a == i);
        let rest = ids.drop_first();
        assert forall|k: int| 0 <= k < rest.len() - 1 implies crate::registry_facts::is_child(
            rifts,
            #[trigger] rest[k],
            rest[k + 1],
        ) by {
            assert(rest[k] == ids[k + 1] && rest[k + 1] == ids[k + 1 + 1]);
        }
        assert(rest.last() == top);
        let up = if rest.len() > 1 {
            assert(crate::registry_facts::is_child(rifts, rest[0], rest[1]));
            choose|b: int| 0 <= b < rifts.len() && (#[trigger] rifts[b]).id == rest[0]
        } else {
            choose|b: int| 0 <= b < rifts.len() && (#[trigger] rifts[b]).id == rest[0]
        };
        assert(0 <= up < rifts.len() && rifts[up].id == ids[1]);
        lemma_reach_of_chain(rifts, up, rest);
        crate::tables::lemma_parent_at(rifts, i);
        assert(crate::tables::parent_at(rifts, i) == up);
        if rifts[i].id == top {
            assert(crate::tables::own_ancestor(rifts, top));
        }
    }
}

/// A row belongs to a subtree just when its workspace descends from the root of it.
proof fn lemma_descends(rifts: Seq<RiftView>, i: int, top: Seq<char>)
    requires
        crate::tables::rifts_ok(rifts),
        0 <= i < rifts.len(),
    ensures
        crate::tables::depth(rifts, i, top) is Some <==> descends(rifts, rifts[i].id, top),
{
    if let Some(generations) = crate::tables::depth(rifts, i, top) {
        assert(crate::tables::reaches(rifts, i, top, generations));
        lemma_chain_of_reach(rifts, i, top, generations);
    }
    if descends(rifts, rifts[i].id, top) {
        let ids = choose|ids: Seq<Seq<char>>| #[trigger]
            chain(rifts, ids) && ids[0] == rifts[i].id && ids.last() == top;
        lemma_reach_of_chain(rifts, i, ids);
    }
}

/// Whether places name the workspaces of a subtree, each once, in the order of a listing: all that
/// descend from the root, and the root itself where it is asked for. Those further down come first,
/// and those of one generation by name.
pub open spec fn subtree_at(
    out: Seq<PathRecordView>,
    places: Seq<int>,
    rifts: Seq<RiftView>,
    top: Seq<char>,
    scope: crate::registry::SubtreeScope,
) -> bool {
    &&& names_each_once(
        places,
        rifts.len() as int,
        |i: int|
            descends(rifts, rifts[i].id, top) && (scope
                == crate::registry::SubtreeScope::IncludingRoot || rifts[i].id != top),
    )
    &&& out.len() == places.len()
    &&& forall|k: int|
        0 <= k < out.len() ==> {
            let row = rifts[places[k]];
            &&& (#[trigger] out[k]).id == row.id
            &&& out[k].path == encode_utf8(row.path)
            &&& out[k].shared_git_dir == path_of(row.shared_git_dir)
            &&& out[k].git_worktree_dir == path_of(row.git_worktree_dir)
        }
    &&& forall|k: int, l: int, a: Seq<Seq<char>>, b: Seq<Seq<char>>|
        0 <= k < l < places.len() && #[trigger] chain(rifts, a) && #[trigger] chain(rifts, b)
            && a[0] == rifts[#[trigger] places[k]].id && b[0] == rifts[#[trigger] places[l]].id
            && a.last() == top && b.last() == top ==> a.len() > b.len() || (a.len() == b.len()
            && earlier(a[0], b[0]))
}

/// A subtree is listed whole, each workspace once, with its Git metadata: all that descend from the
/// root, and the root itself where it is asked for. Those further down come first, and those of one
/// generation by name.
pub proof fn subtree_is_listed_whole_and_from_below(
    out: Seq<PathRecordView>,
    rifts: Seq<RiftView>,
    top: Seq<char>,
    scope: crate::registry::SubtreeScope,
)
    requires
        crate::tables::rifts_ok(rifts),
        !crate::tables::own_ancestor(rifts, top),
        crate::tables::lists_subtree(out, rifts, top, scope.least()),
    ensures
        exists|places: Seq<int>| #[trigger] subtree_at(out, places, rifts, top, scope),
{
    let n = rifts.len() as int;
    let least = scope.least();
    let chosen = crate::tables::below(rifts, top, least);
    let key = crate::tables::deepest_first(rifts, top);
    let item = |i: int| rifts[i].path_record();
    let places = choose|places: Seq<int>| #[trigger]
        crate::tables::lists_at(out, places, n, chosen, key, item);
    assert(crate::tables::lists_at(out, places, n, chosen, key, item));
    lemma_places(out, places, n, chosen, key, item);
    let wanted = |i: int|
        descends(rifts, rifts[i].id, top) && (scope == crate::registry::SubtreeScope::IncludingRoot
            || rifts[i].id != top);
    assert forall|i: int| 0 <= i < n implies #[trigger] chosen(i) == wanted(i) by {
        lemma_descends(rifts, i, top);
        crate::tables::lemma_depth_step(rifts, i, top);
    }
    assert forall|i: int| 0 <= i < n && #[trigger] wanted(i) implies places.contains(i) by {
        assert(chosen(i));
    }
    assert(names_each_once(places, n, wanted));
    assert forall|k: int, l: int, a: Seq<Seq<char>>, b: Seq<Seq<char>>|
        0 <= k < l < places.len() && #[trigger] chain(rifts, a) && #[trigger] chain(rifts, b)
            && a[0] == rifts[#[trigger] places[k]].id && b[0] == rifts[#[trigger] places[l]].id
            && a.last() == top && b.last() == top implies a.len() > b.len() || (a.len() == b.len()
        && earlier(a[0], b[0])) by {
        lemma_reach_of_chain(rifts, places[k], a);
        lemma_reach_of_chain(rifts, places[l], b);
    }
    assert(subtree_at(out, places, rifts, top, scope));
}

/// Removing a workspace removes the rows of just those that descend from it; the others stay as
/// they are.
pub proof fn removal_takes_just_what_descends(tables: Tables, top: Seq<char>)
    requires
        tables.ok(),
    ensures
        tables.without_rift(top).rifts == tables.rifts.filter(
            |row: RiftView| !descends(tables.rifts, row.id, top),
        ),
        tables.without_rift(top).trash == tables.trash,
{
    let rifts = tables.rifts;
    let n = rifts.len() as int;
    lemma_remaining_descends(rifts, top, n);
    assert(rifts.take(n) =~= rifts);
}

proof fn lemma_remaining_descends(rifts: Seq<RiftView>, top: Seq<char>, n: int)
    requires
        crate::tables::rifts_ok(rifts),
        0 <= n <= rifts.len(),
    ensures
        crate::tables::remaining(rifts, top, n) == rifts.take(n).filter(
            |row: RiftView| !descends(rifts, row.id, top),
        ),
    decreases n,
{
    reveal(Seq::filter);
    if n > 0 {
        lemma_remaining_descends(rifts, top, n - 1);
        lemma_descends(rifts, n - 1, top);
        assert(rifts.take(n).drop_last() =~= rifts.take(n - 1));
    } else {
        assert(rifts.take(0) =~= Seq::empty());
    }
}

/// A workspace is refused just where its id or its path is taken, or where its parent is neither in
/// the registry nor itself; else its row is added behind the others, and nothing else changes.
pub proof fn insertion_is_refused_just_where_a_rule_breaks(tables: Tables, row: RiftView)
    ensures
        ({
            let broken = exists|i: int|
                0 <= i < tables.rifts.len() && ((#[trigger] tables.rifts[i]).id == row.id
                    || tables.rifts[i].path == row.path);
            let orphan = row.parent_id matches Some(parent) && parent != row.id && forall|i: int|
                0 <= i < tables.rifts.len() ==> (#[trigger] tables.rifts[i]).id != parent;
            if broken || orphan {
                tables.with_rift(row) == Err::<Tables, ErrorView>(ErrorView::Constraint)
            } else {
                tables.with_rift(row) == Ok::<Tables, ErrorView>(
                    Tables { rifts: tables.rifts.push(row), trash: tables.trash },
                )
            }
        }),
{
}

/// A workspace goes to the trash under its id, at its new path, with its Git metadata and the time;
/// an id or a path that the trash holds already is refused. An id that is not in use changes
/// nothing, and a path without a text is refused with it.
pub proof fn one_move_to_the_trash(tables: Tables, moved: MovedView, now: int, i: int)
    requires
        tables.ok(),
    ensures
        !valid_utf8(moved.trash_path) ==> tables.trash_one(moved, now) == Err::<Tables, ErrorView>(
            ErrorView::Path(
                "path is not valid UTF-8: "@ + crate::foreign::lossy_text(moved.trash_path),
            ),
        ),
        valid_utf8(moved.trash_path) && !crate::tables::has_rift(tables.rifts, moved.id)
            ==> tables.trash_one(moved, now) == Ok::<Tables, ErrorView>(tables),
        valid_utf8(moved.trash_path) && 0 <= i < tables.rifts.len() && tables.rifts[i].id
            == moved.id ==> {
            let taken = exists|k: int|
                0 <= k < tables.trash.len() && ((#[trigger] tables.trash[k]).id == moved.id
                    || tables.trash[k].path == decode_utf8(moved.trash_path));
            if taken {
                tables.trash_one(moved, now) == Err::<Tables, ErrorView>(ErrorView::Constraint)
            } else {
                tables.trash_one(moved, now) == Ok::<Tables, ErrorView>(
                    Tables {
                        rifts: tables.rifts.filter(
                            |row: RiftView| !descends(tables.rifts, row.id, moved.id),
                        ),
                        trash: tables.trash.push(
                            TrashView {
                                id: moved.id,
                                path: decode_utf8(moved.trash_path),
                                removed_at: now,
                                shared_git_dir: tables.rifts[i].shared_git_dir,
                                git_worktree_dir: tables.rifts[i].git_worktree_dir,
                            },
                        ),
                    },
                )
            }
        },
{
    let n = tables.rifts.len() as int;
    crate::tables::lemma_find_before(tables.rifts, moved.id, n);
    assert(tables.rifts.take(n) =~= tables.rifts);
    removal_takes_just_what_descends(tables, moved.id);
    crate::registry_facts::removal_takes_the_subtree(tables, moved.id);
    if 0 <= i < n && tables.rifts[i].id == moved.id {
        let at = crate::tables::find_before(tables.rifts, moved.id, n);
        assert(at == i);
    }
}

/// Workspaces are moved to the trash one after the other, each at its own time; the first that is
/// refused ends it.
pub proof fn moves_to_the_trash_add_up(
    tables: Tables,
    moved: Seq<MovedView>,
    times: Seq<int>,
    one: MovedView,
    now: int,
)
    requires
        moved.len() == times.len(),
    ensures
        tables.trash_all(Seq::empty(), Seq::empty()) == Ok::<Tables, ErrorView>(tables),
        tables.trash_all(moved.push(one), times.push(now)) == match tables.trash_all(moved, times) {
            Ok(next) => next.trash_one(one, now),
            Err(error) => Err(error),
        },
    decreases moved.len(),
{
    let all = moved.push(one);
    let stamps = times.push(now);
    if moved.len() == 0 {
        assert(all.drop_first() =~= Seq::empty());
        assert(stamps.drop_first() =~= Seq::empty());
        reveal_with_fuel(Tables::trash_all, 2);
    } else {
        assert(all.drop_first() =~= moved.drop_first().push(one));
        assert(stamps.drop_first() =~= times.drop_first().push(now));
        if let Ok(next) = tables.trash_one(moved[0], times[0]) {
            moves_to_the_trash_add_up(next, moved.drop_first(), times.drop_first(), one, now);
        }
    }
}

/// Taking a workspace out of the trash takes out the row with its id, and no other.
pub proof fn trash_gives_up_one_row(tables: Tables, id: Seq<char>)
    ensures
        tables.without_trash(id).rifts == tables.rifts,
        tables.without_trash(id).trash == tables.trash.filter(|row: TrashView| row.id != id),
{
    assert(tables.without_trash(id).trash =~= tables.trash.filter(
        |row: TrashView| row.id != id,
    ));
}

/// What is known of a workspace is what its row says.
pub proof fn records_say_what_rows_say(row: RiftView)
    ensures
        row.record().id == row.id,
        row.record().parent_id == row.parent_id,
        row.record().path == encode_utf8(row.path),
        row.record().shared_git_dir == path_of(row.shared_git_dir),
        row.record().git_storage_mode == (if row.git_storage_mode == "shared-worktrees"@ {
            crate::id::GitStorageMode::SharedWorktrees
        } else {
            crate::id::GitStorageMode::Inline
        }),
        row.path_record().id == row.id,
        row.path_record().path == encode_utf8(row.path),
        row.path_record().shared_git_dir == path_of(row.shared_git_dir),
        row.path_record().git_worktree_dir == path_of(row.git_worktree_dir),
{
}


/// A workspace that is inserted gets one row behind the others: with its id, its parent, its paths
/// as text, the time, and the word for how its Git metadata is kept.
pub proof fn inserted_row_holds_what_was_given(
    tables: Tables,
    id: Seq<char>,
    parent_id: Option<Seq<char>>,
    path: Seq<u8>,
    mode: crate::id::GitStorageMode,
    shared_git_dir: Option<Seq<u8>>,
    git_worktree_dir: Option<Seq<u8>>,
    now: int,
)
    requires
        crate::registry::inserted(
            tables,
            id,
            parent_id,
            path,
            mode,
            shared_git_dir,
            git_worktree_dir,
            now,
        ) is Ok,
    ensures
        ({
            let next = crate::registry::inserted(
                tables,
                id,
                parent_id,
                path,
                mode,
                shared_git_dir,
                git_worktree_dir,
                now,
            )->Ok_0;
            let row = next.rifts.last();
            &&& next.rifts.len() == tables.rifts.len() + 1
            &&& next.rifts.drop_last() == tables.rifts
            &&& next.trash == tables.trash
            &&& row.id == id
            &&& row.parent_id == parent_id
            &&& row.created_at == now
            &&& encode_utf8(row.path) == path
            &&& path_of(row.shared_git_dir) == shared_git_dir
            &&& path_of(row.git_worktree_dir) == git_worktree_dir
            &&& row.git_storage_mode == match mode {
                crate::id::GitStorageMode::Inline => "inline"@,
                crate::id::GitStorageMode::SharedWorktrees => "shared-worktrees"@,
            }
        }),
{
    let next = crate::registry::inserted(
        tables,
        id,
        parent_id,
        path,
        mode,
        shared_git_dir,
        git_worktree_dir,
        now,
    )->Ok_0;
    assert(next.rifts.drop_last() =~= tables.rifts);
    crate::registry_facts::stored_path_is_read_back(path);
    if let Some(path) = shared_git_dir {
        crate::registry_facts::stored_path_is_read_back(path);
    }
    if let Some(path) = git_worktree_dir {
        crate::registry_facts::stored_path_is_read_back(path);
    }
}

/// A path without a text is refused, the first of them by its name; no other path is.
pub proof fn paths_without_a_text_are_refused(
    tables: Tables,
    id: Seq<char>,
    parent_id: Option<Seq<char>>,
    path: Seq<u8>,
    mode: crate::id::GitStorageMode,
    shared: Seq<u8>,
    metadata: Seq<u8>,
    now: int,
)
    ensures
        ({
            let refused = |bad: Seq<u8>|
                Err::<Tables, ErrorView>(
                    ErrorView::Path("path is not valid UTF-8: "@ + crate::foreign::lossy_text(bad)),
                );
            let whole = crate::registry::inserted(
                tables,
                id,
                parent_id,
                path,
                mode,
                Some(shared),
                Some(metadata),
                now,
            );
            if !valid_utf8(path) {
                whole == refused(path)
            } else if !valid_utf8(shared) {
                whole == refused(shared)
            } else if !valid_utf8(metadata) {
                whole == refused(metadata)
            } else {
                whole is Ok || whole == Err::<Tables, ErrorView>(ErrorView::Constraint)
            }
        }),
{
}

/// All workspaces in use are listed in the order of their rows.
pub proof fn rows_are_listed_as_they_are(rifts: Seq<RiftView>, k: int)
    requires
        0 <= k < rifts.len(),
    ensures
        ({
            let out = rifts.map_values(|row: RiftView| row.path_record());
            &&& out[k].id == rifts[k].id
            &&& out[k].path == encode_utf8(rifts[k].path)
            &&& out[k].shared_git_dir == path_of(rifts[k].shared_git_dir)
            &&& out[k].git_worktree_dir == path_of(rifts[k].git_worktree_dir)
        }),
{
}

/// Of two copies of one workspace, made one after the other at times that fit, the first is listed
/// before the second.
pub proof fn copies_are_listed_in_the_order_of_their_making(
    tables: Tables,
    parent: Seq<char>,
    first_id: Seq<char>,
    first_path: Seq<u8>,
    first_mode: crate::id::GitStorageMode,
    first_shared: Option<Seq<u8>>,
    first_metadata: Option<Seq<u8>>,
    first_time: u128,
    first_stamp: int,
    second_id: Seq<char>,
    second_path: Seq<u8>,
    second_mode: crate::id::GitStorageMode,
    second_shared: Option<Seq<u8>>,
    second_metadata: Option<Seq<u8>>,
    second_time: u128,
    second_stamp: int,
    between: Tables,
    after: Tables,
    out: Seq<Seq<u8>>,
)
    requires
        first_time < second_time < 0x8000_0000_0000_0000,
        crate::registry::is_stamp(first_stamp, Some(first_time)),
        crate::registry::is_stamp(second_stamp, Some(second_time)),
        crate::registry::inserted(
            tables,
            first_id,
            Some(parent),
            first_path,
            first_mode,
            first_shared,
            first_metadata,
            first_stamp,
        ) == Ok::<Tables, ErrorView>(between),
        crate::registry::inserted(
            between,
            second_id,
            Some(parent),
            second_path,
            second_mode,
            second_shared,
            second_metadata,
            second_stamp,
        ) == Ok::<Tables, ErrorView>(after),
        crate::tables::lists_children(out, after.rifts, parent),
    ensures
        exists|k: int, l: int|
            0 <= k < l < out.len() && #[trigger] out[k] == first_path && #[trigger] out[l]
                == second_path,
{
    crate::registry_facts::later_times_get_later_stamps(first_time, second_time);
    inserted_row_holds_what_was_given(
        tables,
        first_id,
        Some(parent),
        first_path,
        first_mode,
        first_shared,
        first_metadata,
        first_stamp,
    );
    inserted_row_holds_what_was_given(
        between,
        second_id,
        Some(parent),
        second_path,
        second_mode,
        second_shared,
        second_metadata,
        second_stamp,
    );
    let i = between.rifts.len() - 1;
    let j = after.rifts.len() - 1;
    assert(after.rifts[i] == after.rifts.drop_last()[i]);
    assert(after.rifts[i] == between.rifts.last());
    older_children_come_first(out, after.rifts, parent, i, j);
}

/// The tables are in order just where no two rows of one of them share an id or a path. A parent need
/// not be known, and the order of the rows does not matter.
pub proof fn tables_hold_no_id_and_no_path_twice(tables: Tables)
    ensures
        tables.ok() <==> {
            &&& forall|i: int, j: int|
                0 <= i < tables.rifts.len() && 0 <= j < tables.rifts.len() && i != j ==> (
                #[trigger] tables.rifts[i]).id != (#[trigger] tables.rifts[j]).id
                    && tables.rifts[i].path != tables.rifts[j].path
            &&& forall|i: int, j: int|
                0 <= i < tables.trash.len() && 0 <= j < tables.trash.len() && i != j ==> (
                #[trigger] tables.trash[i]).id != (#[trigger] tables.trash[j]).id
                    && tables.trash[i].path != tables.trash[j].path
        },
{
}

/// A workspace is its own ancestor just where a way from copy to parent leads from it back to it.
pub proof fn own_ancestors_go_round(rifts: Seq<RiftView>, top: Seq<char>)
    requires
        crate::tables::rifts_ok(rifts),
    ensures
        crate::tables::own_ancestor(rifts, top) <==> exists|ids: Seq<Seq<char>>| #[trigger]
            chain(rifts, ids) && ids.len() > 1 && ids[0] == top && ids.last() == top,
{
    if crate::tables::own_ancestor(rifts, top) {
        let i = choose|i: int|
            0 <= i < rifts.len() && (#[trigger] rifts[i]).id == top && crate::tables::depth(
                rifts,
                crate::tables::parent_at(rifts, i),
                top,
            ) is Some;
        let up = crate::tables::parent_at(rifts, i);
        let generations = crate::tables::depth(rifts, up, top)->0;
        assert(crate::tables::reaches(rifts, up, top, generations));
        crate::tables::lemma_parent_at(rifts, i);
        lemma_chain_of_reach(rifts, up, top, generations);
        let rest = choose|ids: Seq<Seq<char>>| #[trigger]
            chain(rifts, ids) && ids[0] == rifts[up].id && ids.last() == top;
        let ids = seq![top] + rest;
        assert(crate::registry_facts::is_child(rifts, top, rifts[up].id));
        assert forall|k: int| 0 <= k < ids.len() - 1 implies crate::registry_facts::is_child(
            rifts,
            #[trigger] ids[k],
            ids[k + 1],
        ) by {
            if k > 0 {
                assert(ids[k] == rest[k - 1] && ids[k + 1] == rest[k]);
                assert(crate::registry_facts::is_child(rifts, rest[k - 1], rest[k - 1 + 1]));
            }
        }
        assert(ids.last() == rest.last());
        assert(chain(rifts, ids));
    }
    assert forall|ids: Seq<Seq<char>>| #[trigger]
        chain(rifts, ids) && ids.len() > 1 && ids[0] == top && ids.last()
            == top implies crate::tables::own_ancestor(rifts, top) by {
        assert(crate::registry_facts::is_child(rifts, ids[0], ids[0 + 1int]));
        let i = choose|i: int|
            0 <= i < rifts.len() && (#[trigger] rifts[i]).id == ids[0] && rifts[i].parent_id
                == Some(ids[1]);
        if !crate::tables::own_ancestor(rifts, top) {
            lemma_reach_of_chain(rifts, i, ids);
            crate::tables::lemma_depth_step(rifts, i, top);
        }
    }
}

} // verus!
