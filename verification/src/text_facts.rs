//! What holds of text: where white space is taken off, and what a line is.

use vstd::prelude::*;

verus! {

/// Whether a text is nothing but white space.
pub open spec fn blank(s: Seq<char>) -> bool {
    forall|k: int| 0 <= k < s.len() ==> crate::text::is_white(#[trigger] s[k])
}

/// These are the characters that count as white space.
pub proof fn white_space_is_this(c: char)
    ensures
        crate::text::is_white(c) <==> seq![
            '\t',
            '\n',
            '\u{b}',
            '\u{c}',
            '\r',
            ' ',
            '\u{85}',
            '\u{a0}',
            '\u{1680}',
            '\u{2000}',
            '\u{2001}',
            '\u{2002}',
            '\u{2003}',
            '\u{2004}',
            '\u{2005}',
            '\u{2006}',
            '\u{2007}',
            '\u{2008}',
            '\u{2009}',
            '\u{200a}',
            '\u{2028}',
            '\u{2029}',
            '\u{202f}',
            '\u{205f}',
            '\u{3000}',
        ].contains(c),
{
    let all = seq![
        '\t',
        '\n',
        '\u{b}',
        '\u{c}',
        '\r',
        ' ',
        '\u{85}',
        '\u{a0}',
        '\u{1680}',
        '\u{2000}',
        '\u{2001}',
        '\u{2002}',
        '\u{2003}',
        '\u{2004}',
        '\u{2005}',
        '\u{2006}',
        '\u{2007}',
        '\u{2008}',
        '\u{2009}',
        '\u{200a}',
        '\u{2028}',
        '\u{2029}',
        '\u{202f}',
        '\u{205f}',
        '\u{3000}',
    ];
    let code = c as u32;
    if 0x09 <= code <= 0x0d {
        assert(all[code - 0x09] == c);
    } else if code == 0x20 {
        assert(all[5] == c);
    } else if code == 0x85 {
        assert(all[6] == c);
    } else if code == 0xa0 {
        assert(all[7] == c);
    } else if code == 0x1680 {
        assert(all[8] == c);
    } else if 0x2000 <= code <= 0x200a {
        assert(all[9 + (code - 0x2000)] == c);
    } else if 0x2028 <= code <= 0x2029 {
        assert(all[20 + (code - 0x2028)] == c);
    } else if code == 0x202f {
        assert(all[22] == c);
    } else if code == 0x205f {
        assert(all[23] == c);
    } else if code == 0x3000 {
        assert(all[24] == c);
    }
}

proof fn lemma_front(s: Seq<char>) -> (cut: int)
    ensures
        0 <= cut <= s.len(),
        blank(s.take(cut)),
        crate::text::trimmed_front(s) == s.skip(cut),
        cut < s.len() ==> !crate::text::is_white(s[cut]),
    decreases s.len(),
{
    if s.len() > 0 && crate::text::is_white(s[0]) {
        let rest = lemma_front(s.drop_first());
        let cut = rest + 1;
        assert(s.drop_first().skip(rest) =~= s.skip(cut));
        assert forall|k: int| 0 <= k < cut implies crate::text::is_white(
            #[trigger] s.take(cut)[k],
        ) by {
            if k > 0 {
                assert(s.drop_first().take(rest)[k - 1] == s[k]);
            }
        }
        cut
    } else {
        assert(s.skip(0) =~= s);
        0
    }
}

proof fn lemma_back(s: Seq<char>) -> (end: int)
    ensures
        0 <= end <= s.len(),
        blank(s.skip(end)),
        crate::text::trimmed_back(s) == s.take(end),
        end > 0 ==> !crate::text::is_white(s[end - 1]),
    decreases s.len(),
{
    if s.len() > 0 && crate::text::is_white(s.last()) {
        let end = lemma_back(s.drop_last());
        assert(s.drop_last().take(end) =~= s.take(end));
        assert forall|k: int| 0 <= k < s.skip(end).len() implies crate::text::is_white(
            #[trigger] s.skip(end)[k],
        ) by {
            if end + k < s.len() - 1 {
                assert(s.drop_last().skip(end)[k] == s[end + k]);
            }
        }
        end
    } else {
        assert(s.take(s.len() as int) =~= s);
        s.len() as int
    }
}

/// Whether `inner` is a text without the white space at its ends.
pub open spec fn stripped(s: Seq<char>, inner: Seq<char>) -> bool {
    &&& exists|front: Seq<char>, back: Seq<char>|
        #![trigger blank(front), blank(back)]
        blank(front) && blank(back) && s == front + inner + back
    &&& inner.len() > 0 ==> !crate::text::is_white(inner[0]) && !crate::text::is_white(inner.last())
}

/// Only white space is taken off a text, and all of it that stands at either end.
pub proof fn only_white_ends_are_taken_off(s: Seq<char>)
    ensures
        stripped(s, crate::text::trimmed(s)),
{
    let cut = lemma_front(s);
    let middle = s.skip(cut);
    let end = lemma_back(middle);
    let inner = crate::text::trimmed(s);
    let front = s.take(cut);
    let back = middle.skip(end);
    assert(s =~= front + inner + back);
    assert(blank(front) && blank(back));
    if inner.len() > 0 {
        assert(inner[0] == s[cut]);
        assert(inner.last() == middle[end - 1]);
    }
}

/// Whether the text between two positions is a line: what stands between two newlines, or between
/// one and an end of the text, and holds none.
pub open spec fn line_at(s: Seq<char>, start: int, end: int) -> bool {
    &&& 0 <= start <= end <= s.len()
    &&& start == 0 || s[start - 1] == '\n'
    &&& end == s.len() || s[end] == '\n'
    &&& forall|k: int| start <= k < end ==> #[trigger] s[k] != '\n'
}

proof fn lemma_newline(s: Seq<char>, i: int)
    requires
        0 <= i <= s.len(),
    ensures
        i <= crate::text::next_newline(s, i) <= s.len(),
        crate::text::next_newline(s, i) < s.len() ==> s[crate::text::next_newline(s, i)] == '\n',
        forall|k: int| i <= k < crate::text::next_newline(s, i) ==> #[trigger] s[k] != '\n',
    decreases s.len() - i,
{
    if i < s.len() && s[i] != '\n' {
        lemma_newline(s, i + 1);
    }
}

/// The lines from some line on are those that begin there or later.
proof fn lemma_lines(s: Seq<char>, i: int, line: Seq<char>)
    requires
        0 <= i <= s.len(),
        i == 0 || s[i - 1] == '\n',
    ensures
        crate::text::lines_from(s, i).contains(line) <==> exists|start: int, end: int|
            i <= start && #[trigger] line_at(s, start, end) && s.subrange(start, end) == line,
    decreases s.len() - i,
{
    lemma_newline(s, i);
    let end = crate::text::next_newline(s, i);
    let first = s.subrange(i, end);
    let lines = crate::text::lines_from(s, i);
    assert(line_at(s, i, end));
    assert(lines[0] == first);
    if end < s.len() {
        lemma_lines(s, end + 1, line);
        let rest = crate::text::lines_from(s, end + 1);
        assert(lines =~= seq![first] + rest);
        if lines.contains(line) && line != first {
            let k = choose|k: int| 0 <= k < lines.len() && lines[k] == line;
            assert(rest[k - 1] == line);
            assert(rest.contains(line));
        }
        if rest.contains(line) {
            let k = choose|k: int| 0 <= k < rest.len() && rest[k] == line;
            assert(lines[k + 1] == line);
        }
    }
    assert forall|a: int, b: int|
        i <= a && #[trigger] line_at(s, a, b) && s.subrange(a, b) == line implies lines.contains(
        line,
    ) by {
        if a == i {
            if b < end {
                assert(s[b] == '\n');
            } else if end < b {
                assert(s[end] == '\n');
            }
            assert(lines[0] == line);
        } else {
            assert(s[a - 1] == '\n');
            assert(end < a);
        }
    }
}

/// A text has a wanted line just when one of its lines is that, but for white space around it.
pub proof fn lines_are_what_newlines_part(s: Seq<char>, wanted: Seq<char>)
    ensures
        crate::text::has_line(s, wanted) <==> exists|start: int, end: int| #[trigger]
            line_at(s, start, end) && crate::text::trimmed(s.subrange(start, end)) == wanted,
{
    let lines = crate::text::lines_from(s, 0);
    if crate::text::has_line(s, wanted) {
        let k = choose|k: int|
            0 <= k < lines.len() && crate::text::trimmed(#[trigger] lines[k]) == wanted;
        lemma_lines(s, 0, lines[k]);
        assert(lines.contains(lines[k]));
        let (start, end) = choose|start: int, end: int|
            0 <= start && #[trigger] line_at(s, start, end) && s.subrange(start, end) == lines[k];
        assert(line_at(s, start, end));
    }
    assert forall|start: int, end: int| #[trigger]
        line_at(s, start, end) && crate::text::trimmed(
            s.subrange(start, end),
        ) == wanted implies crate::text::has_line(s, wanted) by {
        let line = s.subrange(start, end);
        lemma_lines(s, 0, line);
        assert(lines.contains(line));
        let k = choose|k: int| 0 <= k < lines.len() && lines[k] == line;
        assert(crate::text::trimmed(lines[k]) == wanted);
    }
}

} // verus!
