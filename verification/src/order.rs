//! The order in which records are listed: by a number first, and by name among equal numbers.

use vstd::prelude::*;
use vstd::string::*;
use vstd::utf8::*;

verus! {

/// Byte strings in dictionary order.
pub open spec fn bytes_less(a: Seq<u8>, b: Seq<u8>) -> bool
    decreases a.len(),
{
    if b.len() == 0 {
        false
    } else if a.len() == 0 {
        true
    } else if a[0] != b[0] {
        a[0] < b[0]
    } else {
        bytes_less(a.drop_first(), b.drop_first())
    }
}

/// Names are ordered by their bytes.
pub open spec fn name_less(a: Seq<char>, b: Seq<char>) -> bool {
    bytes_less(encode_utf8(a), encode_utf8(b))
}

/// What a record is listed by.
pub struct Key {
    pub rank: i128,
    pub name: String,
}

pub struct KeyView {
    pub rank: int,
    pub name: Seq<char>,
}

impl DeepView for Key {
    type V = KeyView;

    open spec fn deep_view(&self) -> KeyView {
        KeyView { rank: self.rank as int, name: self.name@ }
    }
}

pub open spec fn key_less(a: KeyView, b: KeyView) -> bool {
    a.rank < b.rank || (a.rank == b.rank && name_less(a.name, b.name))
}

pub proof fn lemma_bytes_less_transitive(a: Seq<u8>, b: Seq<u8>, c: Seq<u8>)
    requires
        bytes_less(a, b),
        bytes_less(b, c),
    ensures
        bytes_less(a, c),
    decreases a.len(),
{
    if a.len() > 0 && a[0] == b[0] && b[0] == c[0] {
        lemma_bytes_less_transitive(a.drop_first(), b.drop_first(), c.drop_first());
    }
}

pub proof fn lemma_bytes_less_total(a: Seq<u8>, b: Seq<u8>)
    ensures
        bytes_less(a, b) || bytes_less(b, a) || a == b,
        !(bytes_less(a, b) && bytes_less(b, a)),
        !bytes_less(a, a),
    decreases a.len(),
{
    if a.len() > 0 && b.len() > 0 {
        lemma_bytes_less_total(a.drop_first(), b.drop_first());
        lemma_bytes_less_total(a.drop_first(), a.drop_first());
        if a[0] == b[0] && a.drop_first() == b.drop_first() {
            assert(a =~= seq![a[0]] + a.drop_first());
            assert(b =~= seq![b[0]] + b.drop_first());
        }
    } else if a.len() == 0 && b.len() == 0 {
        assert(a =~= b);
    } else if a.len() > 0 {
        lemma_bytes_less_total(a.drop_first(), a.drop_first());
    }
}

/// Of two different names one comes before the other, and not the other way round.
pub proof fn lemma_name_less_total(a: Seq<char>, b: Seq<char>)
    ensures
        name_less(a, b) || name_less(b, a) || a == b,
        !(name_less(a, b) && name_less(b, a)),
        !name_less(a, a),
{
    lemma_bytes_less_total(encode_utf8(a), encode_utf8(b));
    encode_utf8_decode_utf8(a);
    encode_utf8_decode_utf8(b);
}

pub proof fn lemma_key_less_transitive(a: KeyView, b: KeyView, c: KeyView)
    requires
        key_less(a, b),
        key_less(b, c),
    ensures
        key_less(a, c),
{
    if a.rank == b.rank && b.rank == c.rank {
        lemma_bytes_less_transitive(encode_utf8(a.name), encode_utf8(b.name), encode_utf8(c.name));
    }
}

fn less_bytes(a: &[u8], b: &[u8]) -> (less: bool)
    ensures
        less == bytes_less(a@, b@),
{
    let mut k: usize = 0;
    assert(a@.skip(0) =~= a@);
    assert(b@.skip(0) =~= b@);
    while k < a.len() && k < b.len() && a[k] == b[k]
        invariant
            k <= a@.len(),
            k <= b@.len(),
            bytes_less(a@, b@) == bytes_less(a@.skip(k as int), b@.skip(k as int)),
        decreases a@.len() - k,
    {
        proof {
            assert(a@.skip(k as int).drop_first() =~= a@.skip(k + 1));
            assert(b@.skip(k as int).drop_first() =~= b@.skip(k + 1));
        }
        k += 1;
    }
    if k >= b.len() {
        false
    } else if k >= a.len() {
        true
    } else {
        a[k] < b[k]
    }
}

pub fn less_key(a: &Key, b: &Key) -> (less: bool)
    ensures
        less == key_less(a.deep_view(), b.deep_view()),
{
    a.rank < b.rank || (a.rank == b.rank && less_bytes(
        a.name.as_str().as_bytes(),
        b.name.as_str().as_bytes(),
    ))
}

/// Whether `order` lists every position of `keys` once, by increasing key.
pub open spec fn is_order(keys: Seq<KeyView>, order: Seq<int>) -> bool {
    &&& forall|k: int| 0 <= k < order.len() ==> 0 <= #[trigger] order[k] < keys.len()
    &&& forall|i: int| 0 <= i < keys.len() ==> #[trigger] order.contains(i)
    &&& forall|k: int, l: int|
        0 <= k < l < order.len() ==> key_less(keys[#[trigger] order[k]], keys[#[trigger] order[l]])
}

/// The positions of `keys` by increasing key.
pub fn sort(keys: &Vec<Key>) -> (order: Vec<usize>)
    requires
        forall|i: int, j: int|
            0 <= i < j < keys@.len() ==> (#[trigger] keys@[i]).name@ != (#[trigger] keys@[j]).name@,
    ensures
        is_order(keys.deep_view(), order@.map_values(|at: usize| at as int)),
{
    let mut order: Vec<usize> = Vec::new();
    let ghost views = keys.deep_view();
    let mut i: usize = 0;
    while i < keys.len()
        invariant
            i <= keys@.len(),
            views == keys.deep_view(),
            forall|a: int, b: int|
                0 <= a < b < keys@.len() ==> (#[trigger] keys@[a]).name@ != (
                #[trigger] keys@[b]).name@,
            forall|k: int| 0 <= k < order@.len() ==> 0 <= #[trigger] order@[k] < i,
            forall|a: usize| 0 <= a < i ==> #[trigger] order@.contains(a),
            forall|k: int, l: int|
                0 <= k < l < order@.len() ==> key_less(
                    views[#[trigger] order@[k] as int],
                    views[#[trigger] order@[l] as int],
                ),
        decreases keys@.len() - i,
    {
        let mut at: usize = order.len();
        while at > 0 && less_key(&keys[i], &keys[order[at - 1]])
            invariant
                at <= order@.len(),
                i < keys@.len(),
                views == keys.deep_view(),
                forall|k: int| 0 <= k < order@.len() ==> 0 <= #[trigger] order@[k] < i,
                forall|k: int|
                    at <= k < order@.len() ==> key_less(
                        views[i as int],
                        views[#[trigger] order@[k] as int],
                    ),
            decreases at,
        {
            at -= 1;
        }
        let ghost before = order@;
        order.insert(at, i);
        proof {
            assert(order@ == before.insert(at as int, i));
            assert forall|k: int| 0 <= k < at implies key_less(
                views[#[trigger] before[k] as int],
                views[i as int],
            ) by {
                let last = before[at - 1] as int;
                assert(keys@[last].name@ != keys@[i as int].name@);
                lemma_name_less_total(views[last].name, views[i as int].name);
                if k < at - 1 {
                    lemma_key_less_transitive(
                        views[before[k] as int],
                        views[last],
                        views[i as int],
                    );
                }
            }
            assert forall|k: int, l: int| 0 <= k < l < order@.len() implies key_less(
                views[#[trigger] order@[k] as int],
                views[#[trigger] order@[l] as int],
            ) by {
                let k0 = if k < at { k } else { k - 1 };
                let l0 = if l < at { l } else { l - 1 };
                if k != at {
                    assert(order@[k] == before[k0]);
                }
                if l != at {
                    assert(order@[l] == before[l0]);
                }
            }
            assert forall|a: usize| 0 <= a < i + 1 implies #[trigger] order@.contains(a) by {
                if a == i {
                    assert(order@[at as int] == i);
                } else {
                    assert(before.contains(a));
                    let k = choose|k: int| 0 <= k < before.len() && before[k] == a;
                    let k1 = if k < at { k } else { k + 1 };
                    assert(order@[k1] == a);
                }
            }
            assert forall|k: int| 0 <= k < order@.len() implies 0 <= #[trigger] order@[k] < i
                + 1 by {
                if k != at {
                    let k0 = if k < at { k } else { k - 1 };
                    assert(order@[k] == before[k0]);
                }
            }
        }
        i += 1;
    }
    proof {
        let positions = order@.map_values(|at: usize| at as int);
        assert forall|a: int| 0 <= a < views.len() implies #[trigger] positions.contains(a) by {
            assert(order@.contains(a as usize));
            let k = choose|k: int| 0 <= k < order@.len() && order@[k] == a as usize;
            assert(positions[k] == a);
        }
        assert forall|k: int, l: int| 0 <= k < l < positions.len() implies key_less(
            views[#[trigger] positions[k]],
            views[#[trigger] positions[l]],
        ) by {
            assert(positions[k] == order@[k] as int && positions[l] == order@[l] as int);
        }
    }
    order
}

} // verus!
