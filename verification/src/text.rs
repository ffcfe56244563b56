//! Text: white space, lines and prefixes.

use vstd::prelude::*;
use vstd::string::*;

verus! {

/// The characters with the Unicode property `White_Space`.
pub open spec fn is_white(c: char) -> bool {
    let code = c as u32;
    ||| 0x09 <= code <= 0x0d
    ||| code == 0x20
    ||| code == 0x85
    ||| code == 0xa0
    ||| code == 0x1680
    ||| 0x2000 <= code <= 0x200a
    ||| 0x2028 <= code <= 0x2029
    ||| code == 0x202f
    ||| code == 0x205f
    ||| code == 0x3000
}

/// The text without the white space in front.
pub open spec fn trimmed_front(s: Seq<char>) -> Seq<char>
    decreases s.len(),
{
    if s.len() > 0 && is_white(s[0]) {
        trimmed_front(s.drop_first())
    } else {
        s
    }
}

/// The text without the white space behind.
pub open spec fn trimmed_back(s: Seq<char>) -> Seq<char>
    decreases s.len(),
{
    if s.len() > 0 && is_white(s.last()) {
        trimmed_back(s.drop_last())
    } else {
        s
    }
}

/// The text without the white space at either end.
pub open spec fn trimmed(s: Seq<char>) -> Seq<char> {
    trimmed_back(trimmed_front(s))
}

/// The first position from `i` on that holds a newline, or the end.
pub open spec fn next_newline(s: Seq<char>, i: int) -> int
    decreases s.len() - i,
{
    if i >= s.len() || s[i] == '\n' {
        i
    } else {
        next_newline(s, i + 1)
    }
}

/// The lines of `s` from position `i` on, without their newlines. What follows the last newline
/// counts as a line, even where it is empty.
pub open spec fn lines_from(s: Seq<char>, i: int) -> Seq<Seq<char>>
    decreases s.len() - i,
{
    let end = if i <= next_newline(s, i) { next_newline(s, i) } else { i };
    let line = s.subrange(i, end);
    if end < s.len() {
        seq![line] + lines_from(s, end + 1)
    } else {
        seq![line]
    }
}

/// Whether some line is `wanted` once the white space around it is gone.
pub open spec fn has_line(s: Seq<char>, wanted: Seq<char>) -> bool {
    exists|k: int|
        0 <= k < lines_from(s, 0).len() && trimmed(#[trigger] lines_from(s, 0)[k]) == wanted
}

/// The characters of a text.
pub fn chars_of(text: &str) -> (chars: Vec<char>)
    ensures
        chars@ == text@,
{
    let mut chars: Vec<char> = Vec::new();
    for c in it: text.chars()
        invariant
            chars@ == text@.take(it.index()),
            it.seq() == text@,
    {
        chars.push(c);
    }
    chars
}

pub fn white(c: char) -> (is: bool)
    ensures
        is == is_white(c),
{
    let code = c as u32;
    (0x09 <= code && code <= 0x0d) || code == 0x20 || code == 0x85 || code == 0xa0 || code == 0x1680
        || (0x2000 <= code && code <= 0x200a) || (0x2028 <= code && code <= 0x2029) || code
        == 0x202f || code == 0x205f || code == 0x3000
}

/// Finds where the text between `start` and `end` begins and stops being more than white space.
fn trim_bounds(chars: &Vec<char>, start: usize, end: usize) -> (bounds: (usize, usize))
    requires
        start <= end <= chars@.len(),
    ensures
        start <= bounds.0 <= bounds.1 <= end,
        chars@.subrange(bounds.0 as int, bounds.1 as int) == trimmed(
            chars@.subrange(start as int, end as int),
        ),
{
    let ghost whole = chars@.subrange(start as int, end as int);
    let mut first: usize = start;
    while first < end && white(chars[first])
        invariant
            start <= first <= end <= chars@.len(),
            trimmed_front(whole) == trimmed_front(chars@.subrange(first as int, end as int)),
        decreases end - first,
    {
        proof {
            let now = chars@.subrange(first as int, end as int);
            assert(now.drop_first() =~= chars@.subrange(first + 1, end as int));
        }
        first += 1;
    }
    let ghost front = chars@.subrange(first as int, end as int);
    assert(trimmed_front(whole) == front);
    let mut last: usize = end;
    while first < last && white(chars[last - 1])
        invariant
            first <= last <= end <= chars@.len(),
            trimmed_back(front) == trimmed_back(chars@.subrange(first as int, last as int)),
        decreases last - first,
    {
        proof {
            let now = chars@.subrange(first as int, last as int);
            assert(now.drop_last() =~= chars@.subrange(first as int, last - 1));
        }
        last -= 1;
    }
    (first, last)
}

/// The text without the white space at either end.
pub fn trim(text: &str) -> (inner: String)
    ensures
        inner@ == trimmed(text@),
{
    let chars = chars_of(text);
    assert(chars@.subrange(0, chars@.len() as int) =~= chars@);
    let bounds = trim_bounds(&chars, 0, chars.len());
    text.substring_char(bounds.0, bounds.1).to_owned()
}

/// Whether `text` begins with `prefix`.
pub fn starts_with(text: &str, prefix: &str) -> (does: bool)
    ensures
        does == prefix@.is_prefix_of(text@),
{
    let chars = chars_of(text);
    let wanted = chars_of(prefix);
    if wanted.len() > chars.len() {
        return false;
    }
    let mut k: usize = 0;
    while k < wanted.len()
        invariant
            chars@ == text@,
            wanted@ == prefix@,
            k <= wanted@.len() <= chars@.len(),
            forall|j: int| 0 <= j < k ==> chars@[j] == wanted@[j],
        decreases wanted@.len() - k,
    {
        if chars[k] != wanted[k] {
            proof {
                assert(chars@.subrange(0, wanted@.len() as int)[k as int] == chars@[k as int]);
            }
            return false;
        }
        k += 1;
    }
    assert(chars@.subrange(0, wanted@.len() as int) =~= wanted@);
    true
}

fn same_chars(chars: &Vec<char>, start: usize, end: usize, wanted: &Vec<char>) -> (same: bool)
    requires
        start <= end <= chars@.len(),
    ensures
        same == (chars@.subrange(start as int, end as int) == wanted@),
{
    let ghost piece = chars@.subrange(start as int, end as int);
    if end - start != wanted.len() {
        return false;
    }
    let mut k: usize = 0;
    while k < wanted.len()
        invariant
            k <= wanted@.len(),
            start + wanted@.len() == end,
            end <= chars@.len(),
            piece == chars@.subrange(start as int, end as int),
            forall|j: int| 0 <= j < k ==> piece[j] == wanted@[j],
        decreases wanted@.len() - k,
    {
        assert(piece[k as int] == chars@[start + k]);
        if chars[start + k] != wanted[k] {
            return false;
        }
        k += 1;
    }
    assert(piece =~= wanted@);
    true
}

/// Whether some line of `text` is `wanted` once the white space around it is gone.
pub fn contains_line(text: &str, wanted: &str) -> (found: bool)
    ensures
        found == has_line(text@, wanted@),
{
    let chars = chars_of(text);
    let goal = chars_of(wanted);
    let ghost lines = lines_from(text@, 0);
    let ghost mut seen: int = 0;
    let mut start: usize = 0;
    assert(lines =~= lines.take(0) + lines_from(text@, 0));
    loop
        invariant
            chars@ == text@,
            goal@ == wanted@,
            lines == lines_from(text@, 0),
            start <= chars@.len(),
            0 <= seen <= lines.len(),
            lines == lines.take(seen) + lines_from(text@, start as int),
            forall|k: int| 0 <= k < seen ==> trimmed(#[trigger] lines[k]) != wanted@,
        decreases chars@.len() - start,
    {
        let mut end: usize = start;
        while end < chars.len() && chars[end] != '\n'
            invariant
                start <= end <= chars@.len(),
                next_newline(chars@, start as int) == next_newline(chars@, end as int),
            decreases chars@.len() - end,
        {
            end += 1;
        }
        let bounds = trim_bounds(&chars, start, end);
        let hit = same_chars(&chars, bounds.0, bounds.1, &goal);
        proof {
            let rest = lines_from(text@, start as int);
            assert(rest[0] == text@.subrange(start as int, end as int));
            assert(lines[seen] == rest[0]);
        }
        if hit {
            return true;
        }
        if end == chars.len() {
            return false;
        }
        proof {
            let rest = lines_from(text@, start as int);
            assert(rest.drop_first() =~= lines_from(text@, end + 1));
            assert(lines =~= lines.take(seen + 1) + rest.drop_first());
            seen = seen + 1;
        }
        start = end + 1;
    }
}

/// `a` followed by `b`.
pub fn concat(a: &str, b: &str) -> (both: String)
    ensures
        both@ == a@ + b@,
{
    let mut both = a.to_owned();
    both.append(b);
    both
}

} // verus!
