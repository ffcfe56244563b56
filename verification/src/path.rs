//! File system paths as byte strings, read the way Unix reads them.

use crate::foreign::{text_checked, text_lossy};
use vstd::prelude::*;
use vstd::string::*;
use vstd::utf8::*;

verus! {

pub const SLASH: u8 = 0x2f;

pub const DOT: u8 = 0x2e;

/// One component of a path.
pub enum Part {
    /// The leading slash of an absolute path.
    Root,
    /// A leading `.`.
    Here,
    /// `..`.
    Up,
    /// Any other name.
    Name(Seq<u8>),
}

/// The first position from `i` on that holds a slash, or the end of `s`.
pub open spec fn next_slash(s: Seq<u8>, i: int) -> int
    decreases s.len() - i,
{
    if i >= s.len() || s[i] == SLASH {
        i
    } else {
        next_slash(s, i + 1)
    }
}

/// Whether the piece between two slashes is a component: empty pieces are not, and `.` is one
/// only at the very start.
pub open spec fn is_component(s: Seq<u8>, start: int, end: int) -> bool {
    start < end && (start == 0 || s.subrange(start, end) != seq![DOT])
}

/// Where the components of `s` from position `i` on start and end, the root not counted.
pub open spec fn spans(s: Seq<u8>, i: int) -> Seq<(int, int)>
    decreases s.len() - i,
{
    if i >= s.len() {
        Seq::empty()
    } else {
        let end = if i <= next_slash(s, i) { next_slash(s, i) } else { i };
        let rest = if end < s.len() { spans(s, end + 1) } else { Seq::empty() };
        if is_component(s, i, end) {
            seq![(i, end)] + rest
        } else {
            rest
        }
    }
}

pub open spec fn is_absolute(s: Seq<u8>) -> bool {
    s.len() > 0 && s[0] == SLASH
}

pub open spec fn part_of(s: Seq<u8>, span: (int, int)) -> Part {
    let piece = s.subrange(span.0, span.1);
    if piece == seq![DOT] {
        Part::Here
    } else if piece == seq![DOT, DOT] {
        Part::Up
    } else {
        Part::Name(piece)
    }
}

/// The components of a path. Two paths are the same place when their components are equal.
pub open spec fn parts(s: Seq<u8>) -> Seq<Part> {
    let named = spans(s, 0).map_values(|span: (int, int)| part_of(s, span));
    if is_absolute(s) {
        seq![Part::Root] + named
    } else {
        named
    }
}

/// Whether `..` is among the components.
pub open spec fn climbs(s: Seq<u8>) -> bool {
    parts(s).contains(Part::Up)
}

/// `name` appended to `base`, with a slash between them where one is needed. An absolute `name`
/// takes the place of `base`.
pub open spec fn joined(base: Seq<u8>, name: Seq<u8>) -> Seq<u8> {
    if is_absolute(name) {
        name
    } else if base.len() > 0 && base.last() != SLASH {
        base + seq![SLASH] + name
    } else {
        base + name
    }
}

/// What `name` is called inside the directory `path`.
pub open spec fn child(path: Seq<u8>, name: Seq<char>) -> Seq<u8> {
    joined(path, encode_utf8(name))
}

/// The path without its last component.
pub open spec fn parent_of(s: Seq<u8>) -> Option<Seq<u8>> {
    let all = spans(s, 0);
    if all.len() == 0 {
        None
    } else if all.len() > 1 {
        Some(s.subrange(0, all[all.len() - 2].1))
    } else if is_absolute(s) {
        Some(seq![SLASH])
    } else {
        Some(Seq::empty())
    }
}

/// The last component, where it is a name.
pub open spec fn name_of(s: Seq<u8>) -> Option<Seq<u8>> {
    let all = spans(s, 0);
    if all.len() == 0 {
        None
    } else {
        match part_of(s, all.last()) {
            Part::Name(name) => Some(name),
            _ => None,
        }
    }
}

/// How much of a file name stands before its extension: up to the last dot, or all of it where
/// there is no dot but perhaps a leading one.
pub open spec fn stem_len(name: Seq<u8>, upto: int) -> int
    decreases upto,
{
    if upto <= 1 {
        name.len() as int
    } else if name[upto - 1] == DOT {
        upto - 1
    } else {
        stem_len(name, upto - 1)
    }
}

/// The path with the extension of its last name replaced; unchanged where it has no last name.
pub open spec fn with_extension_of(s: Seq<u8>, extension: Seq<u8>) -> Seq<u8> {
    match name_of(s) {
        None => s,
        Some(name) => s.subrange(0, spans(s, 0).last().0 + stem_len(name, name.len() as int))
            + seq![DOT] + extension,
    }
}

pub proof fn lemma_next_slash(s: Seq<u8>, i: int)
    requires
        0 <= i <= s.len(),
    ensures
        i <= next_slash(s, i) <= s.len(),
        next_slash(s, i) < s.len() ==> s[next_slash(s, i)] == SLASH,
        forall|k: int| i <= k < next_slash(s, i) ==> s[k] != SLASH,
    decreases s.len() - i,
{
    if i < s.len() && s[i] != SLASH {
        lemma_next_slash(s, i + 1);
    }
}

/// Every span lies inside the path, behind the position where the search began.
pub proof fn lemma_spans_inside(s: Seq<u8>, i: int)
    requires
        0 <= i,
    ensures
        forall|k: int|
            0 <= k < spans(s, i).len() ==> i <= (#[trigger] spans(s, i)[k]).0 < spans(s, i)[k].1
                <= s.len(),
    decreases s.len() - i,
{
    if i < s.len() {
        lemma_next_slash(s, i);
        let end = next_slash(s, i);
        if end < s.len() {
            lemma_spans_inside(s, end + 1);
        }
        let rest = if end < s.len() { spans(s, end + 1) } else { Seq::empty() };
        let all = spans(s, i);
        assert(all == if is_component(s, i, end) { seq![(i, end)] + rest } else { rest });
        assert forall|k: int| 0 <= k < all.len() implies i <= (#[trigger] all[k]).0 < all[k].1
            <= s.len() by {
            let m = if is_component(s, i, end) { k - 1 } else { k };
            if m >= 0 {
                assert(all[k] == rest[m]);
            }
        }
    }
}

proof fn lemma_stem_len(name: Seq<u8>, upto: int)
    requires
        0 <= upto <= name.len(),
    ensures
        0 <= stem_len(name, upto) <= name.len(),
    decreases upto,
{
    if upto > 1 && name[upto - 1] != DOT {
        lemma_stem_len(name, upto - 1);
    }
}

proof fn lemma_first_part(s: Seq<u8>)
    ensures
        is_absolute(s) <==> parts(s).len() > 0 && parts(s)[0] == Part::Root,
{
    if !is_absolute(s) && parts(s).len() > 0 {
        assert(parts(s)[0] == part_of(s, spans(s, 0)[0]));
    }
}

/// A path.
#[derive(Debug, Eq)]
pub struct FsPath {
    bytes: Vec<u8>,
}

impl View for FsPath {
    type V = Seq<u8>;

    closed spec fn view(&self) -> Seq<u8> {
        self.bytes@
    }
}

impl DeepView for FsPath {
    type V = Seq<u8>;

    open spec fn deep_view(&self) -> Seq<u8> {
        self@
    }
}

fn equal_bytes(a: &Vec<u8>, b: &Vec<u8>) -> (same: bool)
    ensures
        same == (a@ == b@),
{
    if a.len() != b.len() {
        return false;
    }
    let mut k: usize = 0;
    while k < a.len()
        invariant
            k <= a@.len() == b@.len(),
            forall|j: int| 0 <= j < k ==> a@[j] == b@[j],
        decreases a@.len() - k,
    {
        if a[k] != b[k] {
            return false;
        }
        k += 1;
    }
    assert(a@ =~= b@);
    true
}

fn slice_of(bytes: &Vec<u8>, start: usize, end: usize) -> (piece: Vec<u8>)
    requires
        start <= end <= bytes@.len(),
    ensures
        piece@ == bytes@.subrange(start as int, end as int),
{
    let mut piece: Vec<u8> = Vec::new();
    let mut k: usize = start;
    while k < end
        invariant
            start <= k <= end <= bytes@.len(),
            piece@ == bytes@.subrange(start as int, k as int),
        decreases end - k,
    {
        piece.push(bytes[k]);
        k += 1;
    }
    piece
}

impl Clone for FsPath {
    fn clone(&self) -> (path: FsPath)
        ensures
            path@ == self@,
    {
        FsPath { bytes: self.bytes.clone() }
    }
}

/// Paths are compared by their components.
impl PartialEq for FsPath {
    fn eq(&self, other: &FsPath) -> (same: bool) {
        self.same_place(other)
    }
}

impl vstd::std_specs::cmp::PartialEqSpecImpl for FsPath {
    open spec fn obeys_eq_spec() -> bool {
        true
    }

    open spec fn eq_spec(&self, other: &FsPath) -> bool {
        parts(self@) == parts(other@)
    }
}

impl FsPath {
    pub fn from_bytes(bytes: Vec<u8>) -> (path: FsPath)
        ensures
            path@ == bytes@,
    {
        FsPath { bytes }
    }

    pub fn from_text(text: &str) -> (path: FsPath)
        ensures
            path@ == encode_utf8(text@),
    {
        FsPath { bytes: text.as_bytes_vec() }
    }

    pub fn to_bytes(&self) -> (bytes: Vec<u8>)
        ensures
            bytes@ == self@,
    {
        self.bytes.clone()
    }

    /// The path as text, where it is UTF-8.
    pub fn to_text(&self) -> (text: Option<String>)
        ensures
            text is Some <==> valid_utf8(self@),
            text matches Some(t) ==> encode_utf8(t@) == self@,
    {
        text_checked(self.bytes.clone())
    }

    /// The path as text fit to be shown, with what is not UTF-8 replaced.
    pub fn display(&self) -> (text: String)
        ensures
            text@ == crate::foreign::lossy_text(self@),
            valid_utf8(self@) ==> text@ == decode_utf8(self@),
    {
        text_lossy(&self.bytes)
    }

    /// `name` appended to this path.
    pub fn join_bytes(&self, name: &Vec<u8>) -> (path: FsPath)
        ensures
            path@ == joined(self@, name@),
    {
        if name.len() > 0 && name[0] == SLASH {
            return FsPath { bytes: name.clone() };
        }
        let mut bytes: Vec<u8> = self.bytes.clone();
        if bytes.len() > 0 && bytes[bytes.len() - 1] != SLASH {
            bytes.push(SLASH);
        }
        let mut k: usize = 0;
        let ghost front = bytes@;
        while k < name.len()
            invariant
                k <= name@.len(),
                bytes@ == front + name@.subrange(0, k as int),
            decreases name@.len() - k,
        {
            bytes.push(name[k]);
            k += 1;
        }
        proof {
            assert(name@.subrange(0, k as int) =~= name@);
            assert(bytes@ =~= joined(self@, name@));
        }
        FsPath { bytes }
    }

    /// `name` appended to this path.
    pub fn join(&self, name: &str) -> (path: FsPath)
        ensures
            path@ == child(self@, name@),
    {
        self.join_bytes(&name.as_bytes_vec())
    }

    fn find_spans(&self) -> (found: Vec<(usize, usize)>)
        ensures
            found@.map_values(|span: (usize, usize)| (span.0 as int, span.1 as int)) == spans(
                self@,
                0,
            ),
    {
        let mut found: Vec<(usize, usize)> = Vec::new();
        let ghost as_ints = |span: (usize, usize)| (span.0 as int, span.1 as int);
        let len = self.bytes.len();
        let mut start: usize = 0;
        assert(found@.map_values(as_ints) =~= Seq::<(int, int)>::empty());
        assert(Seq::<(int, int)>::empty() + spans(self@, 0) =~= spans(self@, 0));
        while start < len
            invariant
                len == self@.len(),
                self@ == self.bytes@,
                as_ints == (|span: (usize, usize)| (span.0 as int, span.1 as int)),
                spans(self@, 0) == found@.map_values(as_ints) + spans(self@, start as int),
            decreases len - start,
        {
            let mut end: usize = start;
            while end < len && self.bytes[end] != SLASH
                invariant
                    start <= end <= len,
                    len == self@.len(),
                    self@ == self.bytes@,
                    next_slash(self@, start as int) == next_slash(self@, end as int),
                decreases len - end,
            {
                end += 1;
            }
            let lone_dot = end - start == 1 && self.bytes[start] == DOT;
            proof {
                let piece = self@.subrange(start as int, end as int);
                if lone_dot {
                    assert(piece =~= seq![DOT]);
                } else if end - start == 1 {
                    assert(piece[0] != seq![DOT][0]);
                } else {
                    assert(piece.len() != seq![DOT].len());
                }
            }
            let ghost before = found@.map_values(as_ints);
            let ghost rest = spans(self@, end + 1);
            if start < end && (start == 0 || !lone_dot) {
                found.push((start, end));
                proof {
                    assert(found@.map_values(as_ints) =~= before + seq![(start as int, end as int)]);
                    assert(before + (seq![(start as int, end as int)] + rest)
                        =~= found@.map_values(as_ints) + rest);
                }
            }
            if end == len {
                proof {
                    assert(rest =~= Seq::<(int, int)>::empty());
                    assert(found@.map_values(as_ints) + rest =~= found@.map_values(as_ints));
                }
                return found;
            }
            start = end + 1;
        }
        assert(found@.map_values(as_ints) + spans(self@, start as int) =~= found@.map_values(
            as_ints,
        ));
        found
    }

    /// Whether two paths have the same components.
    pub fn same_place(&self, other: &FsPath) -> (same: bool)
        ensures
            same == (parts(self@) == parts(other@)),
    {
        let mine = self.find_spans();
        let theirs = other.find_spans();
        let mine_absolute = self.bytes.len() > 0 && self.bytes[0] == SLASH;
        let theirs_absolute = other.bytes.len() > 0 && other.bytes[0] == SLASH;
        let ghost a = spans(self@, 0);
        let ghost b = spans(other@, 0);
        proof {
            lemma_spans_inside(self@, 0);
            lemma_spans_inside(other@, 0);
            lemma_first_part(self@);
            lemma_first_part(other@);
        }
        if mine_absolute != theirs_absolute {
            return false;
        }
        let ghost shift: int = if mine_absolute { 1 } else { 0 };
        if mine.len() != theirs.len() {
            assert(parts(self@).len() != parts(other@).len());
            return false;
        }
        let mut k: usize = 0;
        while k < mine.len()
            invariant
                k <= mine@.len() == theirs@.len(),
                mine@.map_values(|span: (usize, usize)| (span.0 as int, span.1 as int)) == a,
                theirs@.map_values(|span: (usize, usize)| (span.0 as int, span.1 as int)) == b,
                a == spans(self@, 0),
                b == spans(other@, 0),
                self@ == self.bytes@,
                other@ == other.bytes@,
                mine_absolute == is_absolute(self@),
                mine_absolute == is_absolute(other@),
                shift == (if mine_absolute { 1int } else { 0int }),
                forall|j: int|
                    0 <= j < a.len() ==> 0 <= (#[trigger] a[j]).0 < a[j].1 <= self@.len(),
                forall|j: int|
                    0 <= j < b.len() ==> 0 <= (#[trigger] b[j]).0 < b[j].1 <= other@.len(),
                forall|j: int|
                    0 <= j < k ==> #[trigger] part_of(self@, a[j]) == part_of(other@, b[j]),
            decreases mine@.len() - k,
        {
            assert(a[k as int] == (mine@[k as int].0 as int, mine@[k as int].1 as int));
            assert(b[k as int] == (theirs@[k as int].0 as int, theirs@[k as int].1 as int));
            let x = slice_of(&self.bytes, mine[k].0, mine[k].1);
            let y = slice_of(&other.bytes, theirs[k].0, theirs[k].1);
            if !equal_bytes(&x, &y) {
                proof {
                    assert(part_of(self@, a[k as int]) != part_of(other@, b[k as int]));
                    assert(parts(self@)[k + shift] == part_of(self@, a[k as int]));
                    assert(parts(other@)[k + shift] == part_of(other@, b[k as int]));
                }
                return false;
            }
            k += 1;
        }
        proof {
            assert forall|j: int| 0 <= j < parts(self@).len() implies #[trigger] parts(self@)[j]
                == parts(other@)[j] by {
                if j >= shift {
                    assert(part_of(self@, a[j - shift]) == part_of(other@, b[j - shift]));
                }
            }
            assert(parts(self@) =~= parts(other@));
        }
        true
    }

    /// Whether `..` is among the components.
    pub fn climbs(&self) -> (found: bool)
        ensures
            found == climbs(self@),
    {
        let mine = self.find_spans();
        let ghost a = spans(self@, 0);
        let ghost shift: int = if is_absolute(self@) { 1 } else { 0 };
        proof {
            lemma_spans_inside(self@, 0);
        }
        let mut k: usize = 0;
        while k < mine.len()
            invariant
                k <= mine@.len(),
                mine@.map_values(|span: (usize, usize)| (span.0 as int, span.1 as int)) == a,
                a == spans(self@, 0),
                self@ == self.bytes@,
                shift == (if is_absolute(self@) { 1int } else { 0int }),
                forall|j: int|
                    0 <= j < a.len() ==> 0 <= (#[trigger] a[j]).0 < a[j].1 <= self@.len(),
                forall|j: int| 0 <= j < k ==> #[trigger] part_of(self@, a[j]) != Part::Up,
            decreases mine@.len() - k,
        {
            assert(a[k as int] == (mine@[k as int].0 as int, mine@[k as int].1 as int));
            let start = mine[k].0;
            let end = mine[k].1;
            let ghost piece = self@.subrange(start as int, end as int);
            if end - start == 2 && self.bytes[start] == DOT && self.bytes[start + 1] == DOT {
                proof {
                    assert(piece =~= seq![DOT, DOT]);
                    assert(piece.len() != seq![DOT].len());
                    assert(parts(self@)[k + shift] == part_of(self@, a[k as int]));
                    assert(parts(self@).contains(Part::Up));
                }
                return true;
            }
            proof {
                if piece == seq![DOT, DOT] {
                    assert(piece.len() == 2 && piece[0] == DOT && piece[1] == DOT);
                }
                assert(part_of(self@, a[k as int]) != Part::Up);
            }
            k += 1;
        }
        proof {
            assert forall|j: int| 0 <= j < parts(self@).len() implies #[trigger] parts(self@)[j]
                != Part::Up by {
                if j >= shift {
                    assert(part_of(self@, a[j - shift]) != Part::Up);
                }
            }
        }
        false
    }

    /// The path without its last component; nothing for the root and the empty path.
    pub fn parent(&self) -> (path: Option<FsPath>)
        ensures
            path is Some <==> parent_of(self@) is Some,
            path matches Some(p) ==> Some(p@) == parent_of(self@),
    {
        let mine = self.find_spans();
        let ghost a = spans(self@, 0);
        proof {
            lemma_spans_inside(self@, 0);
            assert(a.len() == mine@.len());
        }
        if mine.len() == 0 {
            None
        } else if mine.len() > 1 {
            assert(a[a.len() - 2] == (mine@[a.len() - 2].0 as int, mine@[a.len() - 2].1 as int));
            Some(FsPath { bytes: slice_of(&self.bytes, 0, mine[mine.len() - 2].1) })
        } else if self.bytes.len() > 0 && self.bytes[0] == SLASH {
            let mut bytes: Vec<u8> = Vec::new();
            bytes.push(SLASH);
            assert(bytes@ =~= seq![SLASH]);
            Some(FsPath { bytes })
        } else {
            Some(FsPath { bytes: Vec::new() })
        }
    }

    /// The last component, where it is a name.
    pub fn file_name(&self) -> (name: Option<Vec<u8>>)
        ensures
            name is Some <==> name_of(self@) is Some,
            name matches Some(n) ==> Some(n@) == name_of(self@),
    {
        let mine = self.find_spans();
        let ghost a = spans(self@, 0);
        proof {
            lemma_spans_inside(self@, 0);
            assert(a.len() == mine@.len());
        }
        if mine.len() == 0 {
            return None;
        }
        assert(a.last() == (mine@.last().0 as int, mine@.last().1 as int));
        let last = mine[mine.len() - 1];
        let piece = slice_of(&self.bytes, last.0, last.1);
        proof {
            assert(seq![DOT].len() == 1);
            assert(seq![DOT, DOT].len() == 2);
            if piece@.len() == 1 && piece@[0] == DOT {
                assert(piece@ =~= seq![DOT]);
            }
            if piece@.len() == 2 && piece@[0] == DOT && piece@[1] == DOT {
                assert(piece@ =~= seq![DOT, DOT]);
            }
        }
        if piece.len() == 1 && piece[0] == DOT {
            None
        } else if piece.len() == 2 && piece[0] == DOT && piece[1] == DOT {
            None
        } else {
            Some(piece)
        }
    }

    /// Whether the last component is the given name.
    pub fn is_named(&self, name: &str) -> (is: bool)
        ensures
            is == (name_of(self@) == Some(encode_utf8(name@))),
    {
        match self.file_name() {
            Some(mine) => equal_bytes(&mine, &name.as_bytes_vec()),
            None => false,
        }
    }

    /// The path with the extension of its last name replaced.
    pub fn with_extension(&self, extension: &str) -> (path: FsPath)
        requires
            extension@.len() > 0,
            !extension@.contains('/'),
        ensures
            path@ == with_extension_of(self@, encode_utf8(extension@)),
    {
        let name = match self.file_name() {
            Some(name) => name,
            None => return self.clone(),
        };
        let mine = self.find_spans();
        let ghost a = spans(self@, 0);
        proof {
            lemma_spans_inside(self@, 0);
            assert(a.len() == mine@.len());
            assert(a.last() == (mine@.last().0 as int, mine@.last().1 as int));
            lemma_stem_len(name@, name@.len() as int);
        }
        let start = mine[mine.len() - 1].0;
        let mut upto: usize = name.len();
        while upto > 1 && name[upto - 1] != DOT
            invariant
                upto <= name@.len(),
                stem_len(name@, name@.len() as int) == stem_len(name@, upto as int),
            decreases upto,
        {
            upto -= 1;
        }
        let stem = if upto > 1 { upto - 1 } else { name.len() };
        let mut bytes: Vec<u8> = slice_of(&self.bytes, 0, start + stem);
        bytes.push(DOT);
        let ghost front = bytes@;
        let tail = extension.as_bytes_vec();
        let mut k: usize = 0;
        while k < tail.len()
            invariant
                k <= tail@.len(),
                bytes@ == front + tail@.subrange(0, k as int),
            decreases tail@.len() - k,
        {
            bytes.push(tail[k]);
            k += 1;
        }
        proof {
            assert(tail@.subrange(0, k as int) =~= tail@);
            assert(bytes@ =~= with_extension_of(self@, encode_utf8(extension@)));
        }
        FsPath { bytes }
    }
}

} // verus!
