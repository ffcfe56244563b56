//! How the operations on paths act on their components.

use crate::path::{Part, DOT, SLASH};
use vstd::prelude::*;
use vstd::utf8::*;

verus! {

/// Whether a byte string is a single name: not empty, without a slash, and neither `.` nor `..`.
pub open spec fn plain(name: Seq<u8>) -> bool {
    &&& name.len() > 0
    &&& !name.contains(SLASH)
    &&& name != seq![DOT]
    &&& name != seq![DOT, DOT]
}

/// Whether a byte string ends where a component can begin.
pub open spec fn open_ended(s: Seq<u8>) -> bool {
    s.len() == 0 || s.last() == SLASH
}

proof fn lemma_next_slash_in_front(s: Seq<u8>, t: Seq<u8>, i: int)
    requires
        0 <= i <= s.len(),
        crate::path::next_slash(s, i) < s.len(),
    ensures
        crate::path::next_slash(s + t, i) == crate::path::next_slash(s, i),
    decreases s.len() - i,
{
    assert(i < s.len() ==> (s + t)[i] == s[i]);
    if i < s.len() && s[i] != SLASH {
        lemma_next_slash_in_front(s, t, i + 1);
    }
}

proof fn lemma_last_slash_found(s: Seq<u8>, i: int)
    requires
        0 <= i < s.len(),
        s.last() == SLASH,
    ensures
        crate::path::next_slash(s, i) < s.len(),
    decreases s.len() - i,
{
    if s[i] != SLASH {
        lemma_last_slash_found(s, i + 1);
    }
}

/// What is appended behind a slash does not change the components in front.
proof fn lemma_spans_append(s: Seq<u8>, t: Seq<u8>, i: int)
    requires
        open_ended(s),
        0 <= i <= s.len(),
    ensures
        crate::path::spans(s + t, i) == crate::path::spans(s, i) + crate::path::spans(
            s + t,
            s.len() as int,
        ),
    decreases s.len() - i,
{
    let tail = crate::path::spans(s + t, s.len() as int);
    if i == s.len() {
        assert(crate::path::spans(s, i) =~= Seq::empty());
        assert(crate::path::spans(s, i) + tail =~= tail);
    } else {
        lemma_last_slash_found(s, i);
        lemma_next_slash_in_front(s, t, i);
        crate::path::lemma_next_slash(s, i);
        let end = crate::path::next_slash(s, i);
        assert((s + t).subrange(i, end) =~= s.subrange(i, end));
        lemma_spans_append(s, t, end + 1);
        let rest = crate::path::spans(s, end + 1);
        assert(crate::path::spans(s + t, end + 1) == rest + tail);
        assert(seq![(i, end)] + (rest + tail) =~= (seq![(i, end)] + rest) + tail);
    }
}

proof fn lemma_no_slash(s: Seq<u8>, i: int)
    requires
        0 <= i <= s.len(),
        forall|k: int| i <= k < s.len() ==> s[k] != SLASH,
    ensures
        crate::path::next_slash(s, i) == s.len(),
    decreases s.len() - i,
{
    if i < s.len() {
        lemma_no_slash(s, i + 1);
    }
}

/// A slash at the end adds no component.
proof fn lemma_spans_trailing(s: Seq<u8>, i: int)
    requires
        0 <= i <= s.len(),
    ensures
        crate::path::spans(s + seq![SLASH], i) == crate::path::spans(s, i),
    decreases s.len() - i,
{
    let longer = s + seq![SLASH];
    if i == s.len() {
        assert(longer[i] == SLASH);
        assert(crate::path::next_slash(longer, i) == i);
        assert(crate::path::spans(longer, i + 1) =~= Seq::empty());
    } else {
        crate::path::lemma_next_slash(s, i);
        crate::path::lemma_next_slash(longer, i);
        let end = crate::path::next_slash(s, i);
        if end < s.len() {
            lemma_next_slash_in_front(s, seq![SLASH], i);
            lemma_spans_trailing(s, end + 1);
        } else {
            let found = crate::path::next_slash(longer, i);
            assert(longer[s.len() as int] == SLASH);
            if found < s.len() {
                assert(longer[found] == s[found]);
            }
            assert(found == s.len());
            assert(crate::path::spans(longer, found + 1) =~= Seq::empty());
        }
        assert(longer.subrange(i, end) =~= s.subrange(i, end));
    }
}

/// A path up to the end of one of its components has the components up to that one.
proof fn lemma_spans_cut(s: Seq<u8>, i: int, k: int)
    requires
        0 <= i,
        0 <= k < crate::path::spans(s, i).len(),
    ensures
        crate::path::spans(s.subrange(0, crate::path::spans(s, i)[k].1), i) == crate::path::spans(
            s,
            i,
        ).take(k + 1),
    decreases s.len() - i,
{
    let all = crate::path::spans(s, i);
    crate::path::lemma_spans_inside(s, i);
    let e = all[k].1;
    let cut = s.subrange(0, e);
    crate::path::lemma_next_slash(s, i);
    let end = crate::path::next_slash(s, i);
    let rest = if end < s.len() { crate::path::spans(s, end + 1) } else { Seq::empty() };
    assert(all == if crate::path::is_component(s, i, end) { seq![(i, end)] + rest } else { rest });
    if crate::path::is_component(s, i, end) && k == 0 {
        assert(e == end);
        assert forall|m: int| i <= m < cut.len() implies cut[m] != SLASH by {
            assert(cut[m] == s[m]);
        }
        lemma_no_slash(cut, i);
        assert(cut.subrange(i, end) =~= s.subrange(i, end));
        assert(crate::path::spans(cut, i) =~= seq![(i, end)]);
        assert(all.take(1) =~= seq![(i, end)]);
    } else {
        let m = if crate::path::is_component(s, i, end) { k - 1 } else { k };
        assert(all[k] == rest[m]);
        crate::path::lemma_spans_inside(s, end + 1);
        assert(end + 1 <= rest[m].0 < rest[m].1);
        lemma_spans_cut(s, end + 1, m);
        assert(rest.take(m + 1) == crate::path::spans(cut, end + 1));
        crate::path::lemma_next_slash(cut, i);
        let found = crate::path::next_slash(cut, i);
        assert(cut[end] == SLASH);
        if found < end {
            assert(cut[found] == s[found]);
        }
        assert(found == end);
        assert(cut.subrange(i, end) =~= s.subrange(i, end));
        if crate::path::is_component(s, i, end) {
            assert(all.take(k + 1) =~= seq![(i, end)] + rest.take(m + 1));
        }
    }
}

/// A component begins at the start or behind a slash.
proof fn lemma_spans_begin(s: Seq<u8>, i: int, k: int)
    requires
        0 <= i,
        i == 0 || (i <= s.len() && s[i - 1] == SLASH),
        0 <= k < crate::path::spans(s, i).len(),
    ensures
        ({
            let start = crate::path::spans(s, i)[k].0;
            &&& 0 <= start < s.len()
            &&& start == 0 || s[start - 1] == SLASH
        }),
    decreases s.len() - i,
{
    let all = crate::path::spans(s, i);
    crate::path::lemma_next_slash(s, i);
    let end = crate::path::next_slash(s, i);
    let rest = if end < s.len() { crate::path::spans(s, end + 1) } else { Seq::empty() };
    assert(all == if crate::path::is_component(s, i, end) { seq![(i, end)] + rest } else { rest });
    if crate::path::is_component(s, i, end) && k == 0 {
    } else {
        let m = if crate::path::is_component(s, i, end) { k - 1 } else { k };
        assert(all[k] == rest[m]);
        lemma_spans_begin(s, end + 1, m);
    }
}

proof fn lemma_same_parts(s: Seq<u8>, t: Seq<u8>)
    requires
        crate::path::is_absolute(s) == crate::path::is_absolute(t),
        crate::path::spans(s, 0) == crate::path::spans(t, 0),
        forall|k: int|
            0 <= k < crate::path::spans(s, 0).len() ==> crate::path::part_of(
                s,
                #[trigger] crate::path::spans(s, 0)[k],
            ) == crate::path::part_of(t, crate::path::spans(s, 0)[k]),
    ensures
        crate::path::parts(s) == crate::path::parts(t),
{
    let a = crate::path::spans(s, 0);
    assert(a.map_values(|span: (int, int)| crate::path::part_of(s, span)) =~= a.map_values(
        |span: (int, int)| crate::path::part_of(t, span),
    ));
}

/// A name behind an open end becomes the last component.
proof fn lemma_named(front: Seq<u8>, name: Seq<u8>)
    requires
        open_ended(front),
        plain(name),
    ensures
        crate::path::spans(front + name, 0) == crate::path::spans(front, 0).push(
            (front.len() as int, (front.len() + name.len()) as int),
        ),
        crate::path::parts(front + name) == crate::path::parts(front).push(Part::Name(name)),
        crate::path::name_of(front + name) == Some(name),
{
    let s = front + name;
    let at = front.len() as int;
    lemma_spans_append(front, name, 0);
    assert forall|k: int| at <= k < s.len() implies s[k] != SLASH by {
        assert(s[k] == name[k - at]);
        assert(name.contains(name[k - at]));
    }
    lemma_no_slash(s, at);
    assert(s.subrange(at, s.len() as int) =~= name);
    let last = (at, s.len() as int);
    assert(crate::path::spans(s, at) =~= seq![last]);
    let before = crate::path::spans(front, 0);
    let all = crate::path::spans(s, 0);
    assert(all =~= before.push(last));
    assert(crate::path::part_of(s, last) == Part::Name(name));
    crate::path::lemma_spans_inside(front, 0);
    assert forall|k: int| 0 <= k < before.len() implies crate::path::part_of(
        s,
        #[trigger] before[k],
    ) == crate::path::part_of(front, before[k]) by {
        assert(s.subrange(before[k].0, before[k].1) =~= front.subrange(
            before[k].0,
            before[k].1,
        ));
    }
    let mapped = all.map_values(|span: (int, int)| crate::path::part_of(s, span));
    let front_mapped = before.map_values(|span: (int, int)| crate::path::part_of(front, span));
    assert(mapped =~= front_mapped.push(Part::Name(name)));
    if front.len() > 0 {
        assert(s[0] == front[0]);
    } else {
        assert(s[0] == name[0]);
        assert(name.contains(name[0]));
    }
    assert(crate::path::is_absolute(s) == crate::path::is_absolute(front));
    assert(crate::path::parts(s) =~= crate::path::parts(front).push(Part::Name(name)));
}

/// Appending a name to a path adds it as the last component.
pub proof fn join_adds_a_component(base: Seq<u8>, name: Seq<u8>)
    requires
        plain(name),
    ensures
        crate::path::parts(crate::path::joined(base, name)) == crate::path::parts(base).push(
            Part::Name(name),
        ),
        crate::path::name_of(crate::path::joined(base, name)) == Some(name),
{
    assert(name.contains(name[0]));
    if base.len() > 0 && base.last() != SLASH {
        let front = base + seq![SLASH];
        lemma_spans_trailing(base, 0);
        crate::path::lemma_spans_inside(base, 0);
        let before = crate::path::spans(base, 0);
        assert forall|k: int| 0 <= k < before.len() implies crate::path::part_of(
            base,
            #[trigger] before[k],
        ) == crate::path::part_of(front, before[k]) by {
            assert(front.subrange(before[k].0, before[k].1) =~= base.subrange(
                before[k].0,
                before[k].1,
            ));
        }
        assert(front[0] == base[0]);
        lemma_same_parts(base, front);
        lemma_named(front, name);
    } else {
        lemma_named(base, name);
    }
}

/// The parent of a path has all its components but the last.
pub proof fn parent_drops_the_last_component(s: Seq<u8>)
    ensures
        crate::path::parent_of(s) matches Some(parent) ==> crate::path::parts(s).len() > 0
            && crate::path::parts(parent) == crate::path::parts(s).drop_last(),
        crate::path::parent_of(s) is None ==> crate::path::parts(s).len() == 0
            || crate::path::parts(s) == seq![Part::Root],
{
    let all = crate::path::spans(s, 0);
    crate::path::lemma_spans_inside(s, 0);
    if all.len() > 1 {
        let n = all.len() - 1;
        let parent = s.subrange(0, all[n - 1].1);
        lemma_spans_cut(s, 0, n - 1);
        assert(crate::path::spans(parent, 0) == all.take(n as int));
        assert(parent[0] == s[0]);
        let mine = all.take(n as int);
        assert forall|k: int| 0 <= k < n implies crate::path::part_of(s, #[trigger] mine[k])
            == crate::path::part_of(parent, mine[k]) by {
            lemma_spans_order(s, 0, k, n - 1);
            assert(mine[k] == all[k]);
            assert(parent.subrange(mine[k].0, mine[k].1) =~= s.subrange(mine[k].0, mine[k].1));
        }
        let whole = all.map_values(|span: (int, int)| crate::path::part_of(s, span));
        let fewer = mine.map_values(|span: (int, int)| crate::path::part_of(parent, span));
        assert(whole.drop_last() =~= fewer);
        assert(crate::path::parts(parent) =~= crate::path::parts(s).drop_last());
    } else if all.len() == 1 {
        if crate::path::is_absolute(s) {
            let root = seq![SLASH];
            assert(crate::path::next_slash(root, 0) == 0);
            assert(crate::path::spans(root, 1) =~= Seq::empty());
            assert(crate::path::spans(root, 0) =~= Seq::empty());
            assert(crate::path::parts(root) =~= seq![Part::Root]);
            assert(crate::path::parts(s).drop_last() =~= seq![Part::Root]);
        } else {
            let nothing = Seq::<u8>::empty();
            assert(crate::path::spans(nothing, 0) =~= Seq::empty());
            assert(crate::path::parts(nothing) =~= Seq::empty());
            assert(crate::path::parts(s).drop_last() =~= Seq::empty());
        }
    } else {
        if crate::path::is_absolute(s) {
            assert(crate::path::parts(s) =~= seq![Part::Root]);
        } else {
            assert(crate::path::parts(s) =~= Seq::empty());
        }
    }
}

/// Components do not overlap, and stand in order.
proof fn lemma_spans_order(s: Seq<u8>, i: int, k: int, l: int)
    requires
        0 <= i,
        0 <= k <= l < crate::path::spans(s, i).len(),
    ensures
        crate::path::spans(s, i)[k].1 <= crate::path::spans(s, i)[l].1,
        k < l ==> crate::path::spans(s, i)[k].1 < crate::path::spans(s, i)[l].0,
    decreases s.len() - i,
{
    let all = crate::path::spans(s, i);
    crate::path::lemma_next_slash(s, i);
    let end = crate::path::next_slash(s, i);
    let rest = if end < s.len() { crate::path::spans(s, end + 1) } else { Seq::empty() };
    assert(all == if crate::path::is_component(s, i, end) { seq![(i, end)] + rest } else { rest });
    if end < s.len() {
        crate::path::lemma_spans_inside(s, end + 1);
    }
    if crate::path::is_component(s, i, end) {
        if k == 0 {
            if l > 0 {
                assert(all[l] == rest[l - 1]);
            }
        } else {
            assert(all[k] == rest[k - 1] && all[l] == rest[l - 1]);
            lemma_spans_order(s, end + 1, k - 1, l - 1);
        }
    } else {
        lemma_spans_order(s, end + 1, k, l);
    }
}

/// A name appended to a path and taken off again leaves the same place.
pub proof fn parent_undoes_join(base: Seq<u8>, name: Seq<u8>)
    requires
        plain(name),
    ensures
        crate::path::parent_of(crate::path::joined(base, name)) matches Some(parent)
            && crate::path::parts(parent) == crate::path::parts(base),
{
    let s = crate::path::joined(base, name);
    join_adds_a_component(base, name);
    parent_drops_the_last_component(s);
    let all = crate::path::parts(s);
    assert(all.drop_last() =~= crate::path::parts(base));
    if crate::path::parent_of(s) is None {
        assert(all.last() == Part::Name(name));
        assert(seq![Part::Root].last() == Part::Root);
    }
}

/// Appending a name does not make a path climb, nor stop it from climbing.
pub proof fn join_does_not_climb(base: Seq<u8>, name: Seq<u8>)
    requires
        plain(name),
    ensures
        crate::path::climbs(crate::path::joined(base, name)) == crate::path::climbs(base),
{
    join_adds_a_component(base, name);
    let before = crate::path::parts(base);
    let all = before.push(Part::Name(name));
    if before.contains(Part::Up) {
        let k = choose|k: int| 0 <= k < before.len() && before[k] == Part::Up;
        assert(all[k] == Part::Up);
    }
    if all.contains(Part::Up) {
        let k = choose|k: int| 0 <= k < all.len() && all[k] == Part::Up;
        assert(before[k] == Part::Up);
    }
}

proof fn lemma_stem(name: Seq<u8>, upto: int)
    requires
        0 < name.len(),
        0 <= upto <= name.len(),
    ensures
        0 < crate::path::stem_len(name, upto) <= name.len(),
    decreases upto,
{
    if upto > 1 && name[upto - 1] != DOT {
        lemma_stem(name, upto - 1);
    }
}

/// Replacing the extension changes the last component only, and leaves a name there.
pub proof fn extension_changes_the_last_component(s: Seq<u8>, extension: Seq<u8>)
    requires
        crate::path::name_of(s) is Some,
        extension.len() > 0,
        !extension.contains(SLASH),
    ensures
        ({
            let name = crate::path::name_of(s)->0;
            let stem = name.take(crate::path::stem_len(name, name.len() as int));
            crate::path::parts(crate::path::with_extension_of(s, extension)) == crate::path::parts(
                s,
            ).drop_last().push(Part::Name(stem + seq![DOT] + extension))
        }),
{
    let all = crate::path::spans(s, 0);
    crate::path::lemma_spans_inside(s, 0);
    let n = all.len() - 1;
    let start = all.last().0;
    let end = all.last().1;
    let name = crate::path::name_of(s)->0;
    assert(name == s.subrange(start, end));
    lemma_stem(name, name.len() as int);
    let len = crate::path::stem_len(name, name.len() as int);
    let stem = name.take(len);
    let fresh = stem + seq![DOT] + extension;
    let front = s.subrange(0, start);
    lemma_spans_begin(s, 0, n as int);
    if start > 0 {
        assert(front.last() == s[start - 1]);
    }
    let tail = s.subrange(start, s.len() as int);
    assert(s =~= front + tail);
    lemma_spans_append(front, tail, 0);
    crate::path::lemma_spans_inside(s, start);
    crate::path::lemma_spans_inside(front, 0);
    let before = crate::path::spans(front, 0);
    let after = crate::path::spans(s, start);
    assert(all == before + after);
    assert(after.len() >= 1) by {
        if after.len() == 0 {
            assert(all.last() == before.last());
            assert(before[before.len() - 1].1 <= front.len());
        }
    }
    assert(after.len() == 1) by {
        if after.len() > 1 {
            lemma_spans_order(s, start, 0, after.len() - 1);
            assert(after.last() == all.last());
            assert(after[0].0 >= start);
        }
    }
    assert(before =~= all.drop_last());
    assert forall|k: int| 0 <= k < fresh.len() implies fresh[k] != SLASH by {
        if k < len {
            assert(fresh[k] == s[start + k]);
            lemma_inside_no_slash(s, 0, n as int, start + k);
        } else if k > len {
            assert(fresh[k] == extension[k - len - 1]);
            assert(extension.contains(extension[k - len - 1]));
        }
    }
    assert(fresh.len() > 2);
    assert(plain(fresh)) by {
        assert(seq![DOT].len() == 1);
        assert(seq![DOT, DOT].len() == 2);
    }
    lemma_named(front, fresh);
    assert(crate::path::with_extension_of(s, extension) =~= front + fresh) by {
        assert(s.subrange(0, start + len) =~= front + stem);
    }
    let whole = crate::path::parts(s);
    assert(whole.drop_last() =~= crate::path::parts(front)) by {
        let mapped = all.map_values(|span: (int, int)| crate::path::part_of(s, span));
        let front_mapped = before.map_values(|span: (int, int)| crate::path::part_of(front, span));
        assert forall|k: int| 0 <= k < before.len() implies crate::path::part_of(
            s,
            #[trigger] before[k],
        ) == crate::path::part_of(front, before[k]) by {
            assert(s.subrange(before[k].0, before[k].1) =~= front.subrange(
                before[k].0,
                before[k].1,
            ));
        }
        assert(mapped.drop_last() =~= front_mapped);
        if front.len() > 0 {
            assert(front[0] == s[0]);
        } else {
            assert(s[0] == name[0]);
            lemma_inside_no_slash(s, 0, n as int, start);
        }
    }
}

/// There is no slash inside a component.
proof fn lemma_inside_no_slash(s: Seq<u8>, i: int, k: int, at: int)
    requires
        0 <= i,
        0 <= k < crate::path::spans(s, i).len(),
        crate::path::spans(s, i)[k].0 <= at < crate::path::spans(s, i)[k].1,
    ensures
        s[at] != SLASH,
    decreases s.len() - i,
{
    let all = crate::path::spans(s, i);
    crate::path::lemma_next_slash(s, i);
    let end = crate::path::next_slash(s, i);
    let rest = if end < s.len() { crate::path::spans(s, end + 1) } else { Seq::empty() };
    assert(all == if crate::path::is_component(s, i, end) { seq![(i, end)] + rest } else { rest });
    if crate::path::is_component(s, i, end) && k == 0 {
    } else {
        let m = if crate::path::is_component(s, i, end) { k - 1 } else { k };
        assert(all[k] == rest[m]);
        lemma_inside_no_slash(s, end + 1, m, at);
    }
}

/// Only the first component can be the root or a lone dot.
pub proof fn lemma_later_parts(s: Seq<u8>)
    ensures
        forall|k: int|
            0 < k < crate::path::parts(s).len() ==> #[trigger] crate::path::parts(s)[k] is Name
                || crate::path::parts(s)[k] is Up,
{
    let all = crate::path::spans(s, 0);
    let shift: int = if crate::path::is_absolute(s) { 1 } else { 0 };
    crate::path::lemma_spans_inside(s, 0);
    assert forall|k: int| 0 < k < crate::path::parts(s).len() implies #[trigger] crate::path::parts(
        s,
    )[k] is Name || crate::path::parts(s)[k] is Up by {
        let m = k - shift;
        assert(crate::path::parts(s)[k] == crate::path::part_of(s, all[m]));
        lemma_component(s, 0, m);
        if m > 0 {
            lemma_spans_order(s, 0, 0, m);
        } else {
            if all[m].0 == 0 {
                lemma_inside_no_slash(s, 0, m, 0);
            }
        }
    }
}

/// What is listed as a component is one.
proof fn lemma_component(s: Seq<u8>, i: int, k: int)
    requires
        0 <= i,
        0 <= k < crate::path::spans(s, i).len(),
    ensures
        crate::path::is_component(s, crate::path::spans(s, i)[k].0, crate::path::spans(s, i)[k].1),
    decreases s.len() - i,
{
    let all = crate::path::spans(s, i);
    crate::path::lemma_next_slash(s, i);
    let end = crate::path::next_slash(s, i);
    let rest = if end < s.len() { crate::path::spans(s, end + 1) } else { Seq::empty() };
    assert(all == if crate::path::is_component(s, i, end) { seq![(i, end)] + rest } else { rest });
    if crate::path::is_component(s, i, end) && k == 0 {
    } else {
        let m = if crate::path::is_component(s, i, end) { k - 1 } else { k };
        assert(all[k] == rest[m]);
        lemma_component(s, end + 1, m);
    }
}


/// Whether the bytes between two positions are a component: all that stands between two slashes, or
/// between one and an end of the path, unless it is empty or a dot that does not begin the path.
pub open spec fn component_at(s: Seq<u8>, start: int, end: int) -> bool {
    &&& 0 <= start < end <= s.len()
    &&& start == 0 || s[start - 1] == 0x2f
    &&& end == s.len() || s[end] == 0x2f
    &&& forall|k: int| start <= k < end ==> #[trigger] s[k] != 0x2f
    &&& start == 0 || !(end == start + 1 && s[start] == 0x2e)
}

/// The components from some piece on are those that begin there or later.
proof fn lemma_components(s: Seq<u8>, i: int)
    requires
        0 <= i <= s.len(),
        i == 0 || s[i - 1] == 0x2f,
    ensures
        forall|start: int, end: int| #[trigger]
            crate::path::spans(s, i).contains((start, end)) <==> i <= start && component_at(
                s,
                start,
                end,
            ),
        forall|k: int, l: int|
            0 <= k < l < crate::path::spans(s, i).len() ==> (#[trigger] crate::path::spans(
                s,
                i,
            )[k]).1 < (#[trigger] crate::path::spans(s, i)[l]).0,
    decreases s.len() - i,
{
    let all = crate::path::spans(s, i);
    if i < s.len() {
        crate::path::lemma_next_slash(s, i);
        let stop = crate::path::next_slash(s, i);
        let rest = if stop < s.len() {
            lemma_components(s, stop + 1);
            crate::path::spans(s, stop + 1)
        } else {
            Seq::empty()
        };
        let taken = crate::path::is_component(s, i, stop);
        if taken {
            assert(all =~= seq![(i, stop)] + rest);
            assert(all[0] == (i, stop));
        } else {
            assert(all =~= rest);
        }
        if i + 1 == stop {
            assert(s.subrange(i, stop) =~= seq![s[i]]);
        }
        assert(s.subrange(i, stop).len() == stop - i);
        assert(taken <==> component_at(s, i, stop)) by {
            if s.subrange(i, stop) == seq![crate::path::DOT] {
                assert(s.subrange(i, stop)[0] == s[i]);
            }
        }
        assert forall|k: int| 0 <= k < rest.len() implies stop < (#[trigger] rest[k]).0 by {
            assert(rest.contains((rest[k].0, rest[k].1)));
        }
        assert forall|start: int, end: int| #[trigger]
            all.contains((start, end)) <==> i <= start && component_at(s, start, end) by {
            if all.contains((start, end)) {
                let k = choose|k: int| 0 <= k < all.len() && all[k] == (start, end);
                if !(taken && k == 0) {
                    let j = if taken { k - 1 } else { k };
                    assert(rest[j] == (start, end));
                    assert(rest.contains((start, end)));
                }
            }
            if i <= start && component_at(s, start, end) {
                if start == i {
                    if end < stop {
                        assert(s[end] == 0x2f);
                    } else if stop < end {
                        assert(s[stop] == 0x2f);
                    }
                    assert(all[0] == (start, end));
                } else {
                    assert(s[start - 1] == 0x2f);
                    assert(stop < start);
                    assert(rest.contains((start, end)));
                    let k = choose|k: int| 0 <= k < rest.len() && rest[k] == (start, end);
                    let j = if taken { k + 1 } else { k };
                    assert(all[j] == (start, end));
                }
            }
        }
        assert forall|k: int, l: int| 0 <= k < l < all.len() implies (#[trigger] all[k]).1 < (
        #[trigger] all[l]).0 by {
            if taken {
                assert(all[l] == rest[l - 1]);
                if k > 0 {
                    assert(all[k] == rest[k - 1]);
                }
            }
        }
    }
}

/// The components of a path are the pieces between its slashes, one after the other: not those that
/// are empty, and a lone dot only at the very start.
pub proof fn components_are_the_pieces_between_slashes(s: Seq<u8>)
    ensures
        forall|start: int, end: int| #[trigger]
            crate::path::spans(s, 0).contains((start, end)) <==> component_at(s, start, end),
        forall|k: int, l: int|
            0 <= k < l < crate::path::spans(s, 0).len() ==> (#[trigger] crate::path::spans(
                s,
                0,
            )[k]).1 < (#[trigger] crate::path::spans(s, 0)[l]).0,
{
    lemma_components(s, 0);
}

/// The stem of a name ends at its last dot, a leading one not counted, or is the whole name.
pub proof fn stem_ends_at_the_last_dot(name: Seq<u8>, upto: int)
    requires
        0 <= upto <= name.len(),
    ensures
        ({
            let end = crate::path::stem_len(name, upto);
            ||| end == name.len() && forall|k: int| 1 <= k < upto ==> #[trigger] name[k] != 0x2e
            ||| 1 <= end < upto && name[end] == 0x2e && forall|k: int|
                end < k < upto ==> #[trigger] name[k] != 0x2e
        }),
    decreases upto,
{
    if upto > 1 && name[upto - 1] != 0x2e {
        stem_ends_at_the_last_dot(name, upto - 1);
    }
}

/// A name goes behind a path with one slash between them, unless there is one, or nothing to part
/// them from; a name that begins with a slash stands for itself.
pub proof fn names_go_behind_one_slash(base: Seq<u8>, name: Seq<u8>)
    ensures
        name.len() > 0 && name[0] == 0x2f ==> crate::path::joined(base, name) == name,
        !(name.len() > 0 && name[0] == 0x2f) && base.len() == 0 ==> crate::path::joined(base, name)
            == name,
        !(name.len() > 0 && name[0] == 0x2f) && base.len() > 0 && base.last() == 0x2f
            ==> crate::path::joined(base, name) == base + name,
        !(name.len() > 0 && name[0] == 0x2f) && base.len() > 0 && base.last() != 0x2f
            ==> crate::path::joined(base, name) == base + seq![0x2f] + name,
{
    if base.len() == 0 {
        assert(base + name =~= name);
    }
}

/// A component of two dots leads upwards, a lone dot stays, and any other is a name; in front of them
/// stands the root where the path begins with a slash.
pub proof fn parts_are_the_components(s: Seq<u8>, k: int)
    requires
        0 <= k < crate::path::spans(s, 0).len(),
    ensures
        ({
            let (start, end) = crate::path::spans(s, 0)[k];
            let rooted = s.len() > 0 && s[0] == 0x2f;
            let at = if rooted { k + 1 } else { k };
            let part = crate::path::parts(s)[at];
            &&& crate::path::parts(s).len() == crate::path::spans(s, 0).len() + (if rooted {
                1int
            } else {
                0int
            })
            &&& rooted ==> crate::path::parts(s)[0] == Part::Root
            &&& if end == start + 1 && s[start] == 0x2e {
                part == Part::Here
            } else if end == start + 2 && s[start] == 0x2e && s[start + 1] == 0x2e {
                part == Part::Up
            } else {
                part == Part::Name(s.subrange(start, end))
            }
        }),
{
    components_are_the_pieces_between_slashes(s);
    let span = crate::path::spans(s, 0)[k];
    assert(crate::path::spans(s, 0).contains((span.0, span.1)));
    let piece = s.subrange(span.0, span.1);
    if span.1 == span.0 + 1 && s[span.0] == 0x2e {
        assert(piece =~= seq![crate::path::DOT]);
    } else if span.1 == span.0 + 2 && s[span.0] == 0x2e && s[span.0 + 1] == 0x2e {
        assert(piece =~= seq![crate::path::DOT, crate::path::DOT]);
    }
    if piece == seq![crate::path::DOT] {
        assert(piece[0] == s[span.0]);
        assert(piece.len() == 1);
    }
    if piece == seq![crate::path::DOT, crate::path::DOT] {
        assert(piece[0] == s[span.0]);
        assert(piece[1] == s[span.0 + 1]);
        assert(piece.len() == 2);
    }
}

/// A path climbs just where one of its components is two dots.
pub proof fn paths_climb_by_two_dots(s: Seq<u8>)
    ensures
        crate::path::climbs(s) <==> exists|start: int| #[trigger]
            component_at(s, start, start + 2) && s[start] == 0x2e && s[start + 1] == 0x2e,
{
    components_are_the_pieces_between_slashes(s);
    let spans = crate::path::spans(s, 0);
    let parts = crate::path::parts(s);
    let shift: int = if s.len() > 0 && s[0] == 0x2f { 1 } else { 0 };
    if crate::path::climbs(s) {
        let at = choose|at: int| 0 <= at < parts.len() && parts[at] == Part::Up;
        let k = at - shift;
        assert(0 <= k < spans.len());
        parts_are_the_components(s, k);
        let (start, end) = spans[k];
        assert(spans.contains((start, end)));
        assert(component_at(s, start, start + 2));
    }
    assert forall|start: int| #[trigger]
        component_at(s, start, start + 2) && s[start] == 0x2e && s[start + 1]
            == 0x2e implies crate::path::climbs(s) by {
        assert(spans.contains((start, start + 2)));
        let k = choose|k: int| 0 <= k < spans.len() && spans[k] == (start, start + 2);
        parts_are_the_components(s, k);
        assert(parts[k + shift] == Part::Up);
    }
}

/// The parent of a path is what stands up to the end of the component before the last; before a lone
/// component it is the root, or nothing; and a path without components has none.
pub proof fn parent_ends_before_the_last_component(s: Seq<u8>)
    ensures
        ({
            let spans = crate::path::spans(s, 0);
            let parent = crate::path::parent_of(s);
            &&& spans.len() == 0 ==> parent is None
            &&& spans.len() == 1 && s[0] == 0x2f ==> parent == Some(seq![0x2fu8])
            &&& spans.len() == 1 && s[0] != 0x2f ==> parent == Some(Seq::<u8>::empty())
            &&& spans.len() > 1 ==> parent == Some(s.take(spans[spans.len() - 2].1))
        }),
{
    components_are_the_pieces_between_slashes(s);
    let spans = crate::path::spans(s, 0);
    if spans.len() > 0 {
        assert(spans.contains((spans[0].0, spans[0].1)));
    }
    if spans.len() > 1 {
        let end = spans[spans.len() - 2].1;
        assert(s.subrange(0, end) =~= s.take(end));
    }
}

/// A new extension goes behind a dot where the stem of the last component ends, and takes the place
/// of all that follows; a path that does not end in a name stays as it is.
pub proof fn extension_goes_behind_the_stem(s: Seq<u8>, extension: Seq<u8>)
    ensures
        ({
            let spans = crate::path::spans(s, 0);
            let (start, end) = spans.last();
            let whole = crate::path::with_extension_of(s, extension);
            let piece = s.subrange(start, end);
            if spans.len() == 0 || piece == seq![0x2eu8] || piece == seq![0x2eu8, 0x2eu8] {
                whole == s
            } else {
                whole == s.take(start + crate::path::stem_len(piece, piece.len() as int)) + seq![
                    0x2eu8,
                ] + extension
            }
        }),
{
    components_are_the_pieces_between_slashes(s);
    let spans = crate::path::spans(s, 0);
    if spans.len() > 0 {
        let (start, end) = spans.last();
        assert(spans.contains((start, end)));
        let piece = s.subrange(start, end);
        let cut = start + crate::path::stem_len(piece, piece.len() as int);
        assert(s.subrange(0, cut) =~= s.take(cut));
    }
}

} // verus!
