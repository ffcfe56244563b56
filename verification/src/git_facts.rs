//! What holds of the changes that are made to Git metadata.

use crate::dialogue::{OutputView, PlaceView, ReplyView, RequestView, Talk};
use crate::error::{ErrorView, FailureKind};
use crate::git::Source;
use vstd::prelude::*;

verus! {

/// Lines end where a newline stands: what comes in front of it and what comes behind it are split
/// into lines apart from each other.
proof fn lemma_lines_split(a: Seq<char>, b: Seq<char>, i: int)
    requires
        0 <= i <= a.len(),
    ensures
        crate::text::lines_from(a.push('\n') + b, i) == crate::text::lines_from(a, i)
            + crate::text::lines_from(b, 0),
    decreases a.len() - i,
{
    let whole = a.push('\n') + b;
    lemma_next_newline(a, b, i);
    let end = crate::text::next_newline(a, i);
    assert(whole.subrange(i, end) =~= a.subrange(i, end));
    if end < a.len() {
        lemma_lines_split(a, b, end + 1);
        assert(crate::text::lines_from(whole, i) =~= crate::text::lines_from(a, i)
            + crate::text::lines_from(b, 0));
    } else {
        lemma_lines_shift(a.push('\n'), b, 0);
        assert(crate::text::lines_from(whole, i) =~= crate::text::lines_from(a, i)
            + crate::text::lines_from(b, 0));
    }
}

proof fn lemma_next_newline(a: Seq<char>, b: Seq<char>, i: int)
    requires
        0 <= i <= a.len(),
    ensures
        crate::text::next_newline(a.push('\n') + b, i) == crate::text::next_newline(a, i),
        i <= crate::text::next_newline(a, i) <= a.len(),
    decreases a.len() - i,
{
    let whole = a.push('\n') + b;
    if i < a.len() {
        assert(whole[i] == a[i]);
        if a[i] != '\n' {
            lemma_next_newline(a, b, i + 1);
        }
    } else {
        assert(whole[i] == '\n');
    }
}

proof fn lemma_newline_shift(a: Seq<char>, b: Seq<char>, i: int)
    requires
        0 <= i <= b.len(),
    ensures
        crate::text::next_newline(a + b, a.len() + i) == a.len() + crate::text::next_newline(b, i),
        i <= crate::text::next_newline(b, i) <= b.len(),
    decreases b.len() - i,
{
    if i < b.len() {
        assert((a + b)[a.len() + i] == b[i]);
        if b[i] != '\n' {
            lemma_newline_shift(a, b, i + 1);
        }
    }
}

proof fn lemma_lines_shift(a: Seq<char>, b: Seq<char>, i: int)
    requires
        0 <= i <= b.len(),
    ensures
        crate::text::lines_from(a + b, a.len() + i) == crate::text::lines_from(b, i),
    decreases b.len() - i,
{
    lemma_newline_shift(a, b, i);
    let end = crate::text::next_newline(b, i);
    assert((a + b).subrange(a.len() + i, a.len() + end) =~= b.subrange(i, end));
    if end < b.len() {
        lemma_lines_shift(a, b, end + 1);
    }
}

/// The lines of a file, where a newline at its end begins no further line.
pub open spec fn lines(contents: Seq<char>) -> Seq<Seq<char>> {
    let all = crate::text::lines_from(contents, 0);
    if contents.len() == 0 || contents.last() == '\n' {
        all.drop_last()
    } else {
        all
    }
}

/// Hiding the marker keeps what the file holds and every line of it, and adds one line behind
/// them: that of the marker.
pub proof fn marker_is_added_as_a_line(existing: Seq<char>)
    ensures
        existing.is_prefix_of(crate::git::with_marker(existing)),
        lines(crate::git::with_marker(existing)) == lines(existing).push(
            crate::git::marker_line(),
        ),
        crate::git::has_marker(crate::git::with_marker(existing)),
        !crate::git::has_marker(existing) ==> forall|k: int|
            0 <= k < lines(existing).len() ==> crate::text::trimmed(
                #[trigger] lines(existing)[k],
            ) != crate::git::marker_line(),
{
    reveal_strlit("");
    reveal_strlit("\n");
    reveal_strlit("/.rift");
    reveal_strlit("/.rift\n");
    let marked = crate::git::with_marker(existing);
    let marker = crate::git::marker_line();
    let nothing = Seq::<char>::empty();
    lemma_one_line(nothing, 0);
    assert(nothing.subrange(0, 0) =~= nothing);
    lemma_lines_split(marker, nothing, 0);
    lemma_one_line(marker, 0);
    assert(marker.subrange(0, marker.len() as int) =~= marker);
    let tail = marker.push('\n') + nothing;
    assert(tail =~= "/.rift\n"@);
    assert(crate::text::lines_from(tail, 0) =~= seq![marker, nothing]);
    assert(marked.subrange(0, existing.len() as int) =~= existing);
    let all = crate::text::lines_from(marked, 0);
    if existing.len() == 0 {
        assert(marked =~= tail);
        assert(lines(existing) =~= Seq::empty());
        assert(all =~= lines(existing) + seq![marker, nothing]);
    } else if existing.last() == '\n' {
        let front = existing.drop_last();
        assert(marked =~= front.push('\n') + tail);
        assert(existing =~= front.push('\n') + nothing);
        lemma_lines_split(front, tail, 0);
        lemma_lines_split(front, nothing, 0);
        assert(lines(existing) =~= crate::text::lines_from(front, 0));
        assert(all =~= lines(existing) + seq![marker, nothing]);
    } else {
        assert(marked =~= existing.push('\n') + tail);
        lemma_lines_split(existing, tail, 0);
        assert(all =~= lines(existing) + seq![marker, nothing]);
    }
    assert(marked.last() == '\n');
    assert(lines(marked) =~= lines(existing).push(marker));
    let k = lines(existing).len() as int;
    assert(all[k] == marker);
    lemma_marker_is_trimmed();
    if !crate::git::has_marker(existing) {
        assert forall|k: int| 0 <= k < lines(existing).len() implies crate::text::trimmed(
            #[trigger] lines(existing)[k],
        ) != marker by {
            assert(lines(existing)[k] == crate::text::lines_from(existing, 0)[k]);
        }
    }
}

/// A file that hides the marker already is read and left alone.
pub proof fn hidden_marker_is_left_alone(common_dir: Seq<u8>, contents: Seq<char>, talk: Talk)
    requires
        talk.rest.len() >= 2,
        talk.rest[0] == ReplyView::Done,
        talk.rest[1] == ReplyView::Text(contents),
        crate::git::has_marker(contents),
    ensures
        ({
            let run = crate::git::add_marker_run(common_dir, talk);
            let info = crate::path::child(common_dir, "info"@);
            &&& run.out == Some(Ok::<(), ErrorView>(()))
            &&& run.talk.asked == talk.asked + seq![
                RequestView::CreateDirs(info),
                RequestView::ReadText(crate::path::child(info, "exclude"@)),
            ]
        }),
{
    let info = crate::path::child(common_dir, "info"@);
    let exclude = crate::path::child(info, "exclude"@);
    let made = talk.perform(RequestView::CreateDirs(info));
    assert(made.talk.rest[0] == talk.rest[1]);
    let run = crate::git::add_marker_run(common_dir, talk);
    assert(run.talk.asked =~= talk.asked + seq![
        RequestView::CreateDirs(info),
        RequestView::ReadText(exclude),
    ]);
}

/// A file that does not hide the marker yet, or is missing, is written with the marker added.
pub proof fn visible_marker_is_hidden(
    common_dir: Seq<u8>,
    existing: Option<Seq<char>>,
    talk: Talk,
)
    requires
        talk.rest.len() >= 3,
        talk.rest[0] == ReplyView::Done,
        match existing {
            Some(contents) => talk.rest[1] == ReplyView::Text(contents)
                && !crate::git::has_marker(contents),
            None => talk.rest[1] matches ReplyView::Failed(failure) && failure.kind
                == FailureKind::NotFound,
        },
        talk.rest[2] == ReplyView::Done,
    ensures
        ({
            let run = crate::git::add_marker_run(common_dir, talk);
            let exclude = crate::path::child(crate::path::child(common_dir, "info"@), "exclude"@);
            let contents = match existing {
                Some(contents) => contents,
                None => Seq::<char>::empty(),
            };
            &&& run.out == Some(Ok::<(), ErrorView>(()))
            &&& run.talk.asked.last() == RequestView::WriteText(
                exclude,
                crate::git::with_marker(contents),
            )
        }),
{
    let info = crate::path::child(common_dir, "info"@);
    let exclude = crate::path::child(info, "exclude"@);
    let made = talk.perform(RequestView::CreateDirs(info));
    assert(made.talk.rest[0] == talk.rest[1]);
    let read = crate::git::read_or_empty_run(exclude, made.talk);
    assert(read.talk.rest[0] == talk.rest[2]);
    if existing is None {
        lemma_nothing_hides_nothing();
    }
}

pub proof fn lemma_nothing_hides_nothing()
    ensures
        !crate::git::has_marker(Seq::<char>::empty()),
{
    reveal_strlit("/.rift");
    let nothing = Seq::<char>::empty();
    lemma_one_line(nothing, 0);
    assert(nothing.subrange(0, 0) =~= nothing);
}

/// Whether the answers at hand say of the states from number `from` on that none exists.
pub open spec fn quiet(from: int, answers: Seq<ReplyView>) -> bool {
    forall|k: int|
        from <= k < crate::git::busy_states().len() ==> #[trigger] answers[k - from]
            != ReplyView::Flag(true)
}

/// A repository is accepted just when none of the signs of an operation in progress exists, and
/// all of them are looked for before it is.
pub proof fn only_quiet_repositories_are_accepted(git_dir: Seq<u8>, from: int, talk: Talk)
    requires
        0 <= from <= crate::git::busy_states().len(),
        talk.rest.len() >= crate::git::busy_states().len() - from,
    ensures
        ({
            let run = crate::git::no_state_run(git_dir, from, talk);
            &&& run.out is Some
            &&& run.out->0 is Ok <==> quiet(from, talk.rest)
            &&& run.out->0 is Ok ==> run.talk.asked.len() == talk.asked.len()
                + crate::git::busy_states().len() - from
        }),
    decreases crate::git::busy_states().len() - from,
{
    if from < crate::git::busy_states().len() {
        let asked = talk.ask_flag(
            RequestView::Exists(crate::path::child(git_dir, crate::git::busy_states()[from])),
        );
        only_quiet_repositories_are_accepted(git_dir, from + 1, asked.talk);
        assert(talk.rest[from - from] == talk.rest[0]);
        if quiet(from + 1, asked.talk.rest) && talk.rest[0] != ReplyView::Flag(true) {
            assert forall|k: int|
                from <= k < crate::git::busy_states().len() implies #[trigger] talk.rest[k - from]
                != ReplyView::Flag(true) by {
                if k > from {
                    assert(asked.talk.rest[k - (from + 1)] == talk.rest[k - from]);
                }
            }
        }
        if quiet(from, talk.rest) {
            assert forall|k: int|
                from + 1 <= k < crate::git::busy_states().len() implies
                #[trigger] asked.talk.rest[k - (from + 1)] != ReplyView::Flag(true) by {
                assert(asked.talk.rest[k - (from + 1)] == talk.rest[k - from]);
            }
        }
    }
}

/// Two lookups of the directories of a repository that get the same answers find the same.
proof fn lemma_same_lookup(path: Seq<u8>, a: Talk, b: Talk)
    requires
        a.rest.len() >= 3,
        b.rest.len() >= 3,
        a.rest.take(3) == b.rest.take(3),
        a.rest[0] == ReplyView::Flag(true),
    ensures
        ({
            let found = crate::git::resolve_dirs_run(path, a);
            let again = crate::git::resolve_dirs_run(path, b);
            &&& found.out == again.out
            &&& found.out is Some
            &&& found.out->0 is Ok ==> found.out->0->Ok_0 is Some && found.talk.rest
                == a.rest.skip(3) && again.talk.rest == b.rest.skip(3)
        }),
{
    let same = a.rest.take(3);
    assert(a.rest[0] == same[0] && b.rest[0] == same[0]);
    let request = RequestView::Exists(crate::path::child(path, ".git"@));
    let a1 = a.after(request);
    let b1 = b.after(request);
    assert(a1.rest[0] == same[1] && b1.rest[0] == same[1]);
    let a2 = crate::git::git_path_run(path, "--git-dir"@, a1);
    let b2 = crate::git::git_path_run(path, "--git-dir"@, b1);
    assert(a2.out == b2.out);
    assert(a2.talk.rest[0] == same[2] && b2.talk.rest[0] == same[2]);
    let a3 = crate::git::git_path_run(path, "--git-common-dir"@, a2.talk);
    let b3 = crate::git::git_path_run(path, "--git-common-dir"@, b2.talk);
    assert(a3.out == b3.out);
    assert(a3.talk.rest =~= a.rest.skip(3));
    assert(b3.talk.rest =~= b.rest.skip(3));
}

proof fn lemma_same_states(git_dir: Seq<u8>, from: int, a: Talk, b: Talk)
    requires
        a.rest == b.rest,
    ensures
        crate::git::no_state_run(git_dir, from, a).out == crate::git::no_state_run(
            git_dir,
            from,
            b,
        ).out,
    decreases crate::git::busy_states().len() - from,
{
    if from < crate::git::busy_states().len() {
        let request = RequestView::Exists(
            crate::path::child(git_dir, crate::git::busy_states()[from]),
        );
        lemma_same_states(git_dir, from + 1, a.after(request), b.after(request));
    }
}

/// Where `.git` is missing or a directory, both checks of a source come to the same result: a plain
/// directory where it is missing, and otherwise what the answers to the lookup of the repository
/// and to the search for operations in progress decide.
pub proof fn checks_agree(path: Seq<u8>, lookup: Seq<ReplyView>, states: Seq<ReplyView>)
    requires
        lookup.len() == 3,
        lookup[0] == ReplyView::Flag(true),
    ensures
        crate::git::check_source_run(
            path,
            crate::replay::beginning(
                seq![ReplyView::Flag(true), ReplyView::Flag(true)] + lookup + states,
            ),
        ).out == crate::git::check_source_allow_worktree_run(
            path,
            crate::replay::beginning(
                seq![ReplyView::Flag(true)] + lookup + lookup + states,
            ),
        ).out,
        crate::git::check_source_run(
            path,
            crate::replay::beginning(seq![ReplyView::Flag(false)]),
        ).out == Some(Ok::<Source, ErrorView>(Source::PlainDirectory)),
        crate::git::check_source_allow_worktree_run(
            path,
            crate::replay::beginning(seq![ReplyView::Flag(false)]),
        ).out == Some(Ok::<Source, ErrorView>(Source::PlainDirectory)),
{
    let git = crate::path::child(path, ".git"@);
    let yes = ReplyView::Flag(true);
    let one = crate::replay::beginning(seq![yes, yes] + lookup + states);
    let two = crate::replay::beginning(seq![yes] + lookup + lookup + states);
    let one_looked = one.after(RequestView::Exists(git)).after(RequestView::IsDir(git));
    let two_looked = two.after(RequestView::Exists(git));
    assert(one.after(RequestView::Exists(git)).rest[0] == yes);
    assert(one_looked.rest =~= lookup + states);
    assert(two_looked.rest =~= lookup + (lookup + states));
    assert(one_looked.rest.take(3) =~= lookup);
    assert(two_looked.rest.take(3) =~= lookup);
    assert(one_looked.rest[0] == lookup[0] && two_looked.rest[0] == lookup[0]);
    lemma_same_lookup(path, one_looked, two_looked);
    let found = crate::git::resolve_dirs_run(path, one_looked);
    let first = crate::git::resolve_dirs_run(path, two_looked);
    if found.out->0 is Ok {
        assert(found.talk.rest =~= states);
        assert(first.talk.rest =~= lookup + states);
        assert(first.talk.rest.take(3) =~= lookup);
        lemma_same_lookup(path, one_looked, first.talk);
        let second = crate::git::resolve_dirs_run(path, first.talk);
        assert(second.talk.rest =~= states);
        let dirs = found.out->0->Ok_0->0;
        lemma_same_states(dirs.git_dir, 0, found.talk, second.talk);
    }
    let absent = crate::replay::beginning(seq![ReplyView::Flag(false)]);
    assert(absent.rest[0] == ReplyView::Flag(false));
}

/// Nothing is written to a repository without a commit.
pub proof fn repository_without_commit_is_left_alone(path: Seq<u8>, output: OutputView, talk: Talk)
    requires
        talk.rest.len() >= 2,
        talk.rest[0] == ReplyView::Commit(None),
        talk.rest[1] == ReplyView::Printed(output),
        !output.success,
    ensures
        ({
            let run = crate::git::detach_destination_run(path, talk);
            &&& run.out == Some(Ok::<(), ErrorView>(()))
            &&& run.talk.asked == talk.asked + seq![
                RequestView::HeadCommit(path),
                RequestView::Git(PlaceView::WorkTree(path), crate::git::head_commit_args()),
            ]
        }),
{
    let found = talk.ask_commit(RequestView::HeadCommit(path));
    assert(found.talk.rest[0] == talk.rest[1]);
    let run = crate::git::detach_destination_run(path, talk);
    assert(run.talk.asked =~= talk.asked + seq![
        RequestView::HeadCommit(path),
        RequestView::Git(PlaceView::WorkTree(path), crate::git::head_commit_args()),
    ]);
}

proof fn lemma_one_line(line: Seq<char>, i: int)
    requires
        0 <= i <= line.len(),
        forall|k: int| 0 <= k < line.len() ==> line[k] != '\n',
    ensures
        crate::text::next_newline(line, i) == line.len(),
        crate::text::lines_from(line, i) == seq![line.subrange(i, line.len() as int)],
    decreases line.len() - i,
{
    if i < line.len() {
        lemma_one_line(line, i + 1);
    }
}

proof fn lemma_marker_is_trimmed()
    ensures
        crate::text::trimmed(crate::git::marker_line()) == crate::git::marker_line(),
{
    reveal_strlit("/.rift");
}

} // verus!
