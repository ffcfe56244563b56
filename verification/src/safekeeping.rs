//! That a repository is not lost while it moves from one place to another.
//!
//! A repository may be at several places at once, while a copy is made. What an operation does to
//! the places that hold it follows from its requests and their answers; the laws here say that
//! there always is such a place, whatever fails on the way.

use crate::dialogue::{
    EntryKind, OutputView, PlaceView, ReplyView, RequestView, Run, Talk,
};
use crate::error::{ErrorView, FailureKind};
use crate::path::Part;
use crate::worktree::StepView;
use vstd::prelude::*;
use vstd::utf8::*;

verus! {

/// The places that hold the repository.
pub type Holders = Set<Seq<Part>>;

/// The holders once what was at `from` is at `to`.
pub open spec fn moved(holders: Holders, from: Seq<Part>, to: Seq<Part>) -> Holders {
    Set::new(
        |place: Seq<Part>|
            if to.is_prefix_of(place) {
                holders.contains(from + place.skip(to.len() as int))
            } else {
                holders.contains(place) && !from.is_prefix_of(place)
            },
    )
}

/// The holders once what is at `from` is also at `to`.
pub open spec fn copied(holders: Holders, from: Seq<Part>, to: Seq<Part>) -> Holders {
    Set::new(
        |place: Seq<Part>|
            if to.is_prefix_of(place) {
                holders.contains(from + place.skip(to.len() as int))
            } else {
                holders.contains(place)
            },
    )
}

/// The holders once there is nothing left at a place and below it.
pub open spec fn removed(holders: Holders, from: Seq<Part>) -> Holders {
    Set::new(|place: Seq<Part>| holders.contains(place) && !from.is_prefix_of(place))
}

/// What a request that was answered did to the holders. A move or a copy that failed did nothing;
/// a removal that failed may have removed anything. Requests that concern a single file do not
/// touch a directory.
pub open spec fn effect(holders: Holders, request: RequestView, reply: ReplyView) -> Holders {
    match request {
        RequestView::Rename(from, to) => if reply == ReplyView::Done {
            moved(holders, crate::path::parts(from), crate::path::parts(to))
        } else {
            holders
        },
        RequestView::CopyTree(from, to) => if reply == ReplyView::Done {
            copied(holders, crate::path::parts(from), crate::path::parts(to))
        } else {
            holders
        },
        RequestView::RemoveTree(path) => removed(holders, crate::path::parts(path)),
        _ => holders,
    }
}

/// The holders once the first `n` requests were answered.
pub open spec fn holders_after(first: Holders, talk: Talk, n: nat) -> Holders
    decreases n,
{
    if n == 0 {
        first
    } else {
        effect(
            holders_after(first, talk, (n - 1) as nat),
            talk.asked[n - 1],
            talk.answers[n - 1],
        )
    }
}

/// How many requests were answered.
pub open spec fn answered(talk: Talk) -> nat {
    if talk.asked.len() <= talk.answers.len() {
        talk.asked.len()
    } else {
        talk.answers.len()
    }
}

/// Whether a conversation runs from its start: the first request got the first answer, the second
/// the second, and so on.
pub open spec fn in_step(talk: Talk) -> bool {
    talk.rest == talk.answers.skip(answered(talk) as int)
}

/// The holders as they are now.
pub open spec fn holders_now(first: Holders, talk: Talk) -> Holders {
    holders_after(first, talk, answered(talk))
}

/// Whether there is a holder.
pub open spec fn held(holders: Holders) -> bool {
    exists|place: Seq<Part>| holders.contains(place)
}

/// Whether there was a holder all the time up to now.
pub open spec fn never_lost(first: Holders, talk: Talk) -> bool {
    forall|n: nat| n <= answered(talk) ==> held(#[trigger] holders_after(first, talk, n))
}

/// A conversation from its start in which the repository was never lost, and the holders now.
pub open spec fn kept(first: Holders, talk: Talk, now: Holders) -> bool {
    &&& in_step(talk)
    &&& never_lost(first, talk)
    &&& holders_now(first, talk) == now
}

/// A conversation that begins has lost nothing yet.
pub proof fn nothing_is_lost_at_the_beginning(first: Holders, answers: Seq<ReplyView>)
    requires
        held(first),
    ensures
        kept(first, crate::replay::beginning(answers), first),
{
    let talk = crate::replay::beginning(answers);
    assert(talk.answers.skip(0) =~= answers);
    assert forall|n: nat| n <= answered(talk) implies held(
        #[trigger] holders_after(first, talk, n),
    ) by {
        assert(n == 0);
    }
}

/// Earlier holders do not depend on what was asked later.
proof fn lemma_earlier_holders(first: Holders, talk: Talk, request: RequestView, n: nat)
    requires
        n <= answered(talk),
    ensures
        holders_after(first, talk.after(request), n) == holders_after(first, talk, n),
    decreases n,
{
    if n > 0 {
        lemma_earlier_holders(first, talk, request, (n - 1) as nat);
        assert(talk.after(request).asked[n - 1] == talk.asked[n - 1]);
    }
}

/// One request more, with its answer or still without.
proof fn lemma_next(first: Holders, talk: Talk, now: Holders, request: RequestView)
    requires
        kept(first, talk, now),
        talk.next_reply() matches Some(reply) ==> held(effect(now, request, reply)),
    ensures
        kept(
            first,
            talk.after(request),
            match talk.next_reply() {
                Some(reply) => effect(now, request, reply),
                None => now,
            },
        ),
{
    let next = talk.after(request);
    let count = answered(talk);
    if talk.rest.len() > 0 {
        assert(talk.rest[0] == talk.answers[count as int]);
        assert(answered(next) == count + 1);
        assert(next.asked[count as int] == request);
        assert(next.rest =~= next.answers.skip(answered(next) as int));
        lemma_earlier_holders(first, talk, request, count);
        assert(holders_after(first, next, count + 1) == effect(now, request, talk.rest[0]));
    } else {
        assert(answered(next) == talk.answers.len());
        if talk.asked.len() < talk.answers.len() {
            assert(talk.answers.skip(count as int).len() > 0);
        }
        assert(answered(next) == count);
        assert(next.rest =~= next.answers.skip(answered(next) as int));
        lemma_earlier_holders(first, talk, request, count);
    }
    assert forall|n: nat| n <= answered(next) implies held(
        #[trigger] holders_after(first, next, n),
    ) by {
        if n <= count {
            lemma_earlier_holders(first, talk, request, n);
        }
    }
}

/// Whether an operation came to its end and succeeded.
pub open spec fn worked<T>(run: Run<T>) -> bool {
    run.out is Some && run.out->0 is Ok
}

/// Requests that do nothing to the holders.
pub open spec fn harmless(request: RequestView) -> bool {
    match request {
        RequestView::Rename(_, _) => false,
        RequestView::CopyTree(_, _) => false,
        RequestView::RemoveTree(_) => false,
        _ => true,
    }
}

proof fn lemma_harmless(first: Holders, now: Holders)
    ensures
        forall|talk: Talk, request: RequestView|
            #![trigger talk.after(request)]
            kept(first, talk, now) && harmless(request) ==> kept(first, talk.after(request), now),
{
    assert forall|talk: Talk, request: RequestView|
        #![trigger talk.after(request)]
        kept(first, talk, now) && harmless(request) implies kept(
        first,
        talk.after(request),
        now,
    ) by {
        assert(held(holders_after(first, talk, answered(talk))));
        lemma_next(first, talk, now, request);
    }
}

/// The request that a step makes.
pub open spec fn request_of(step: StepView) -> RequestView {
    match step {
        StepView::Act(request) => request,
        StepView::Command(place, args, _) => RequestView::Git(place, args),
    }
}

/// A step brings the holders from `now` to `next` where it succeeds, and leaves them alone where
/// it does not.
proof fn lemma_step(first: Holders, talk: Talk, now: Holders, next: Holders, step: StepView)
    requires
        kept(first, talk, now),
        held(next),
        effect(now, request_of(step), ReplyView::Done) == next,
        forall|reply: ReplyView|
            reply != ReplyView::Done ==> #[trigger] effect(now, request_of(step), reply) == now,
        step is Command ==> next == now,
    ensures
        ({
            let run = crate::worktree::step_run(step, talk);
            if worked(run) {
                kept(first, run.talk, next)
            } else {
                kept(first, run.talk, now)
            }
        }),
{
    assert(held(holders_after(first, talk, answered(talk))));
    lemma_next(first, talk, now, request_of(step));
}

/// A path behind another is that other path just when nothing is left behind it.
proof fn lemma_rest_of_place(a: Seq<Part>, b: Seq<Part>, place: Seq<Part>)
    requires
        b.is_prefix_of(place),
    ensures
        a + place.skip(b.len() as int) == a <==> place == b,
        a.is_prefix_of(a + place.skip(b.len() as int)),
{
    let rest = place.skip(b.len() as int);
    assert(place =~= b + rest);
    assert((a + rest).subrange(0, a.len() as int) =~= a);
    if place == b {
        assert(rest =~= Seq::empty());
        assert(a + rest =~= a);
    }
    if a + rest == a {
        assert(rest.len() == 0);
        assert(b + rest =~= b);
    }
}

proof fn lemma_own_prefix(place: Seq<Part>)
    ensures
        place.is_prefix_of(place),
{
    assert(place.subrange(0, place.len() as int) =~= place);
}

/// What moving makes of a single holder.
proof fn lemma_moved(from: Seq<Part>, to: Seq<Part>)
    requires
        !to.is_prefix_of(from),
    ensures
        moved(set![from], from, to) == set![to],
{
    assert forall|place: Seq<Part>| #[trigger]
        moved(set![from], from, to).contains(place) <==> set![to].contains(place) by {
        lemma_own_prefix(to);
        lemma_own_prefix(from);
        if to.is_prefix_of(place) {
            lemma_rest_of_place(from, to, place);
        }
    }
    assert(moved(set![from], from, to) =~= set![to]);
}

/// What copying, moving the copy and removing make of a single holder.
proof fn lemma_places(from: Seq<Part>, to: Seq<Part>, between: Seq<Part>)
    requires
        !from.is_prefix_of(to),
        !to.is_prefix_of(from),
        !between.is_prefix_of(from),
        between != to,
    ensures
        copied(set![from], from, between) == set![from, between],
        moved(set![from, between], between, to) == set![from, to],
        removed(set![from, to], from) == set![to],
{
    assert forall|place: Seq<Part>| #[trigger]
        copied(set![from], from, between).contains(place) <==> set![from, between].contains(
            place,
        ) by {
        lemma_own_prefix(between);
        if between.is_prefix_of(place) {
            lemma_rest_of_place(from, between, place);
        }
    }
    assert(copied(set![from], from, between) =~= set![from, between]);
    assert forall|place: Seq<Part>| #[trigger]
        moved(set![from, between], between, to).contains(place) <==> set![from, to].contains(
            place,
        ) by {
        lemma_own_prefix(to);
        lemma_own_prefix(between);
        if to.is_prefix_of(place) {
            lemma_rest_of_place(between, to, place);
        }
    }
    assert(moved(set![from, between], between, to) =~= set![from, to]);
    lemma_own_prefix(from);
    assert(removed(set![from, to], from) =~= set![to]);
}

/// The place next to the destination that a move across file systems uses.
pub open spec fn between(destination: Seq<u8>) -> Seq<u8> {
    crate::path::with_extension_of(destination, encode_utf8("rift-restore-tmp"@))
}

/// Whether neither of two places lies inside the other, nor is the one next to the second the same
/// as that.
pub open spec fn outside(source: Seq<u8>, destination: Seq<u8>) -> bool {
    &&& !crate::path::parts(source).is_prefix_of(crate::path::parts(destination))
    &&& !crate::path::parts(destination).is_prefix_of(crate::path::parts(source))
    &&& crate::path::parts(between(destination)) != crate::path::parts(destination)
}

/// Whether a repository can be moved between two places without either lying inside the other or
/// in the way of the other.
pub open spec fn apart(source: Seq<u8>, destination: Seq<u8>) -> bool {
    &&& outside(source, destination)
    &&& !crate::path::parts(between(destination)).is_prefix_of(crate::path::parts(source))
}

/// Whether a file system can give this answer while the repository is where it is: no place is
/// missing at which or below which it is, and no directory moves into itself.
pub open spec fn possible(holders: Holders, request: RequestView, reply: ReplyView) -> bool {
    match request {
        RequestView::Exists(path) => reply != ReplyView::Flag(true) ==> forall|place: Seq<Part>|
            #[trigger] holders.contains(place) ==> !crate::path::parts(path).is_prefix_of(place),
        RequestView::Rename(from, to) => reply == ReplyView::Done ==> !crate::path::parts(
            from,
        ).is_prefix_of(crate::path::parts(to)),
        _ => true,
    }
}

/// Whether a file system can give all the answers of a conversation.
pub open spec fn truthful(first: Holders, talk: Talk) -> bool {
    forall|n: nat|
        n < answered(talk) ==> possible(
            #[trigger] holders_after(first, talk, n),
            talk.asked[n as int],
            talk.answers[n as int],
        )
}

/// The holders up to some point are the same in a conversation that was carried on from there.
proof fn lemma_same_holders(first: Holders, talk: Talk, later: Talk, n: nat)
    requires
        crate::replay::grows(talk, later, crate::replay::any()),
        n <= answered(talk),
    ensures
        holders_after(first, later, n) == holders_after(first, talk, n),
    decreases n,
{
    reveal(crate::replay::adds);
    if n > 0 {
        lemma_same_holders(first, talk, later, (n - 1) as nat);
    }
}

/// What was true of a whole conversation was true of its beginning.
proof fn lemma_truthful_earlier(first: Holders, talk: Talk, later: Talk)
    requires
        crate::replay::grows(talk, later, crate::replay::any()),
        truthful(first, later),
    ensures
        truthful(first, talk),
{
    reveal(crate::replay::adds);
    assert forall|n: nat| n < answered(talk) implies possible(
        #[trigger] holders_after(first, talk, n),
        talk.asked[n as int],
        talk.answers[n as int],
    ) by {
        lemma_same_holders(first, talk, later, n);
        assert(later.asked[n as int] == talk.asked[n as int]);
    }
}

/// In a truthful conversation the next answer is a possible one.
proof fn lemma_truthful(first: Holders, talk: Talk, request: RequestView, later: Talk)
    requires
        in_step(talk),
        talk.rest.len() > 0,
        crate::replay::grows(talk.after(request), later, crate::replay::any()),
        truthful(first, later),
    ensures
        possible(holders_now(first, talk), request, talk.rest[0]),
{
    let next = talk.after(request);
    let n = answered(talk);
    assert(talk.asked.len() < talk.answers.len()) by {
        if talk.asked.len() >= talk.answers.len() {
            assert(talk.answers.skip(n as int).len() == 0);
        }
    }
    assert(talk.rest[0] == talk.answers[n as int]);
    lemma_truthful_earlier(first, next, later);
    lemma_earlier_holders(first, talk, request, n);
    assert(possible(holders_after(first, next, n), next.asked[n as int], next.answers[n as int]));
}

/// Whether a repository can be moved between two places in a conversation: they are apart, or
/// neither lies inside the other and the answers are possible ones, so that what is in the way is
/// noticed.
pub open spec fn movable(
    first: Holders,
    source: Seq<u8>,
    destination: Seq<u8>,
    talk: Talk,
) -> bool {
    outside(source, destination) && (apart(source, destination) || truthful(first, talk))
}

/// Moving a repository does not lose it, whatever fails on the way, and where the move succeeds,
/// it is at its destination and nowhere else.
pub proof fn move_does_not_lose(first: Holders, talk: Talk, source: Seq<u8>, destination: Seq<u8>)
    requires
        kept(first, talk, set![crate::path::parts(source)]),
        movable(
            first,
            source,
            destination,
            crate::worktree::move_dir_run(source, destination, talk).talk,
        ),
    ensures
        ({
            let run = crate::worktree::move_dir_run(source, destination, talk);
            &&& in_step(run.talk)
            &&& never_lost(first, run.talk)
            &&& worked(run) ==> kept(
                first,
                run.talk,
                set![crate::path::parts(destination)],
            )
        }),
{
    let from = crate::path::parts(source);
    let to = crate::path::parts(destination);
    let temporary = between(destination);
    let middle = crate::path::parts(temporary);
    lemma_moved(from, to);
    let rename = StepView::Act(RequestView::Rename(source, destination));
    assert(set![to].contains(to));
    assert(set![from].contains(from));
    assert(set![from, middle].contains(from));
    assert(set![from, to].contains(from));
    lemma_step(first, talk, set![from], set![to], rename);
    let moved = talk.perform(RequestView::Rename(source, destination));
    assert(moved == crate::worktree::step_run(rename, talk));
    lemma_harmless(first, set![from]);
    let asked = moved.talk.ask_flag(RequestView::Exists(temporary));
    let run = crate::worktree::move_dir_run(source, destination, talk);
    let far = moved.out matches Some(Err(ErrorView::Io(failure))) && failure.kind
        == FailureKind::CrossesDevices;
    if far && asked.out == Some(Ok::<bool, ErrorView>(false)) {
        assert(!middle.is_prefix_of(from)) by {
            if truthful(first, run.talk) {
                crate::replay::lemma_one_request();
                crate::replay::steps(3);
                assert(crate::replay::grows(asked.talk, run.talk, crate::replay::any()));
                lemma_truthful(first, moved.talk, RequestView::Exists(temporary), run.talk);
            }
        }
        lemma_places(from, to, middle);
        let copy = StepView::Act(RequestView::CopyTree(source, temporary));
        let place = StepView::Act(RequestView::Rename(temporary, destination));
        let remove = StepView::Act(RequestView::RemoveTree(source));
        let steps = seq![copy, place, remove];
        lemma_step(first, asked.talk, set![from], set![from, middle], copy);
        let one = crate::worktree::step_run(copy, asked.talk);
        assert(steps.drop_first() =~= seq![place, remove]);
        assert(steps.drop_first().drop_first() =~= seq![remove]);
        assert(steps.drop_first().drop_first().drop_first() =~= Seq::empty());
        reveal_with_fuel(crate::worktree::steps_run, 4);
        if worked(one) {
            lemma_step(first, one.talk, set![from, middle], set![from, to], place);
            let two = crate::worktree::step_run(place, one.talk);
            if worked(two) {
                lemma_next(first, two.talk, set![from, to], RequestView::RemoveTree(source));
            }
        }
    }
}

/// Moving a repository back does not lose it.
pub proof fn moving_back_does_not_lose(
    first: Holders,
    talk: Talk,
    source: Seq<u8>,
    destination: Seq<u8>,
)
    requires
        kept(first, talk, set![crate::path::parts(source)]),
        movable(
            first,
            source,
            destination,
            crate::worktree::restore_git_dir_run(source, destination, talk).talk,
        ),
    ensures
        ({
            let run = crate::worktree::restore_git_dir_run(source, destination, talk);
            &&& in_step(run.talk)
            &&& never_lost(first, run.talk)
            &&& worked(run) ==> kept(
                first,
                run.talk,
                set![crate::path::parts(destination)],
            )
        }),
{
    lemma_harmless(first, set![crate::path::parts(source)]);
    let there = talk.ask_flag(RequestView::Exists(destination));
    if there.out is Some {
        if there.out == Some(Ok::<bool, ErrorView>(true)) {
            let seen = there.talk.ask_kind(RequestView::Inspect(destination));
            if worked(seen) && seen.out->0->Ok_0 != EntryKind::Directory {
                let gone = seen.talk.perform(RequestView::RemoveFile(destination));
                if worked(gone) {
                    move_does_not_lose(first, gone.talk, source, destination);
                }
            }
        } else {
            move_does_not_lose(first, there.talk, source, destination);
        }
    }
}

/// Whether all answers to the question whether anything is at `place` are true, where nothing but
/// the repository ever gets there.
pub open spec fn honest(first: Holders, talk: Talk, place: Seq<u8>) -> bool {
    forall|n: nat|
        n < answered(talk) && talk.asked[n as int] == RequestView::Exists(place) ==> (
        talk.answers[n as int] == ReplyView::Flag(true) <==> (
        #[trigger] holders_after(first, talk, n)).contains(crate::path::parts(place)))
}

/// In an honest conversation the next question gets a true answer.
proof fn lemma_honest(first: Holders, talk: Talk, place: Seq<u8>, later: Talk)
    requires
        in_step(talk),
        talk.rest.len() > 0,
        crate::replay::grows(
            talk.after(RequestView::Exists(place)),
            later,
            crate::replay::any(),
        ),
        honest(first, later, place),
    ensures
        talk.rest[0] == ReplyView::Flag(true) <==> holders_now(first, talk).contains(
            crate::path::parts(place),
        ),
{
    let request = RequestView::Exists(place);
    let next = talk.after(request);
    let n = answered(talk);
    assert(talk.asked.len() < talk.answers.len()) by {
        if talk.asked.len() >= talk.answers.len() {
            assert(talk.answers.skip(n as int).len() == 0);
        }
    }
    assert(talk.rest[0] == talk.answers[n as int]);
    lemma_same_holders(first, next, later, n);
    lemma_earlier_holders(first, talk, request, n);
    reveal(crate::replay::adds);
    assert(later.asked[n as int] == next.asked[n as int]);
}

/// Undoing an initialization does not lose the repository: the stores are removed only once it is
/// back at its inline place. Where it was brought back, or had never left, its inline place is the
/// only one that holds it.
pub proof fn rollback_does_not_lose(
    first: Holders,
    talk: Talk,
    now: Holders,
    inline_git: Seq<u8>,
    staging_git: Seq<u8>,
    final_git: Seq<u8>,
    staging_parent: Seq<u8>,
    final_parent: Seq<u8>,
)
    requires
        kept(first, talk, now),
        now == set![crate::path::parts(inline_git)] || now == set![crate::path::parts(staging_git)]
            || now == set![crate::path::parts(final_git)],
        ({
            let run = crate::worktree::rollback_run(
                inline_git,
                staging_git,
                final_git,
                staging_parent,
                final_parent,
                talk,
            );
            let inline = crate::path::parts(inline_git);
            &&& honest(first, run.talk, staging_git)
            &&& honest(first, run.talk, final_git)
            &&& crate::path::parts(staging_git) != inline
            &&& crate::path::parts(final_git) != inline
            &&& now != set![inline] ==> {
                &&& movable(first, staging_git, inline_git, run.talk)
                &&& movable(first, final_git, inline_git, run.talk)
                &&& !crate::path::parts(staging_parent).is_prefix_of(inline)
                &&& !crate::path::parts(final_parent).is_prefix_of(inline)
            }
        }),
    ensures
        ({
            let run = crate::worktree::rollback_run(
                inline_git,
                staging_git,
                final_git,
                staging_parent,
                final_parent,
                talk,
            );
            let back = crate::worktree::put_back_run(inline_git, staging_git, final_git, talk);
            let inline = crate::path::parts(inline_git);
            &&& in_step(run.talk)
            &&& never_lost(first, run.talk)
            &&& back.out == Some(Ok::<bool, ErrorView>(true)) || now == set![inline] ==> kept(
                first,
                run.talk,
                set![inline],
            )
        }),
{
    let inline = crate::path::parts(inline_git);
    let staging = crate::path::parts(staging_git);
    let fixed = crate::path::parts(final_git);
    assert(set![fixed].contains(fixed));
    assert(set![staging].contains(staging));
    assert(set![inline].contains(inline));
    lemma_own_prefix(inline);
    lemma_harmless(first, now);
    crate::replay::lemma_one_request();
    let run = crate::worktree::rollback_run(
        inline_git,
        staging_git,
        final_git,
        staging_parent,
        final_parent,
        talk,
    );
    let back = crate::worktree::put_back_run(inline_git, staging_git, final_git, talk);
    assert(crate::replay::grows(back.talk, run.talk, crate::replay::any()));
    if truthful(first, run.talk) {
        lemma_truthful_earlier(first, back.talk, run.talk);
    }
    assert(now == set![inline] ==> !now.contains(fixed) && !now.contains(staging));
    let in_final = talk.ask_flag(RequestView::Exists(final_git));
    if in_final.out is Some {
        crate::replay::restore_git_dir(final_git, inline_git);
        crate::replay::restore_git_dir(staging_git, inline_git);
        assert(crate::replay::grows(in_final.talk, back.talk, crate::replay::any()));
        assert(crate::replay::grows(in_final.talk, run.talk, crate::replay::any()));
        lemma_honest(first, talk, final_git, run.talk);
        if in_final.out == Some(Ok::<bool, ErrorView>(true)) {
            assert(now.contains(fixed));
            assert(now =~= set![fixed]);
            moving_back_does_not_lose(first, in_final.talk, final_git, inline_git);
        } else {
            let in_staging = in_final.talk.ask_flag(RequestView::Exists(staging_git));
            if in_staging.out == Some(Ok::<bool, ErrorView>(true)) {
                assert(crate::replay::grows(in_staging.talk, back.talk, crate::replay::any()));
                lemma_honest(first, in_final.talk, staging_git, run.talk);
                assert(now.contains(staging));
                assert(now =~= set![staging]);
                moving_back_does_not_lose(first, in_staging.talk, staging_git, inline_git);
            }
        }
    }
    assert(in_step(back.talk) && never_lost(first, back.talk));
    if back.out == Some(Ok::<bool, ErrorView>(true)) {
        assert(kept(first, back.talk, set![inline]));
        assert(removed(set![inline], crate::path::parts(staging_parent)) =~= set![inline]);
        assert(removed(set![inline], crate::path::parts(final_parent)) =~= set![inline]);
        let remove = RequestView::RemoveTree(staging_parent);
        lemma_next(first, back.talk, set![inline], remove);
        let one = back.talk.attempt(remove);
        lemma_next(first, one.talk, set![inline], RequestView::RemoveTree(final_parent));
    } else if now == set![inline] {
        lemma_own_prefix(staging);
        lemma_own_prefix(fixed);
        assert(!set![inline].contains(staging) && !set![inline].contains(fixed));
        assert(kept(first, run.talk, set![inline]));
    }
}

/// Whether moving a repository into its store failed, and it was brought back or had not left.
pub open spec fn brought_back(
    first: Holders,
    path: Seq<u8>,
    repos: Seq<u8>,
    staging_parent: Seq<u8>,
    final_parent: Seq<u8>,
    final_git: Seq<u8>,
    talk: Talk,
) -> bool {
    let inline_git = crate::path::child(path, ".git"@);
    let done = crate::worktree::steps_run(
        crate::worktree::initialize_steps(path, repos, staging_parent, final_parent, final_git),
        talk,
    );
    let back = crate::worktree::put_back_run(
        inline_git,
        crate::path::child(staging_parent, "git"@),
        final_git,
        done.talk,
    );
    &&& done.out is Some
    &&& done.out->0 is Err
    &&& back.out == Some(Ok::<bool, ErrorView>(true)) || holders_now(first, done.talk) == set![
        crate::path::parts(inline_git),
    ]
}

/// Where the repository is once so many steps of an initialization are done.
pub open spec fn place_after(
    done: int,
    inline_git: Seq<u8>,
    staging_git: Seq<u8>,
    final_git: Seq<u8>,
) -> Seq<Part> {
    if done <= 2 {
        crate::path::parts(inline_git)
    } else if done <= 7 {
        crate::path::parts(staging_git)
    } else {
        crate::path::parts(final_git)
    }
}

/// What moves of directories make of a single holder, where the holder is what moves or lies in
/// it.
proof fn lemma_move_whole(from: Seq<Part>, to: Seq<Part>, below: Seq<Part>)
    ensures
        moved(set![from + below], from, to) == set![to + below],
{
    let before = from + below;
    let after = to + below;
    assert(before.subrange(0, from.len() as int) =~= from);
    assert(after.subrange(0, to.len() as int) =~= to);
    assert(after.skip(to.len() as int) =~= below);
    assert forall|place: Seq<Part>| #[trigger]
        moved(set![before], from, to).contains(place) <==> set![after].contains(place) by {
        if to.is_prefix_of(place) {
            let rest = place.skip(to.len() as int);
            assert(place =~= to + rest);
            if from + rest == before {
                assert(rest =~= (from + rest).skip(from.len() as int));
                assert(rest =~= before.skip(from.len() as int));
                assert(before.skip(from.len() as int) =~= below);
            }
        }
    }
    assert(moved(set![before], from, to) =~= set![after]);
}

/// The steps of an initialization from number `done` on.
proof fn lemma_plan(
    first: Holders,
    talk: Talk,
    path: Seq<u8>,
    repos: Seq<u8>,
    staging_parent: Seq<u8>,
    final_parent: Seq<u8>,
    final_git: Seq<u8>,
    done: int,
)
    requires
        0 <= done <= 12,
        crate::path::parts(final_git) == crate::path::parts(final_parent).push(
            Part::Name(encode_utf8("git"@)),
        ),
        kept(
            first,
            talk,
            set![
                place_after(
                    done,
                    crate::path::child(path, ".git"@),
                    crate::path::child(staging_parent, "git"@),
                    final_git,
                ),
            ],
        ),
    ensures
        ({
            let inline_git = crate::path::child(path, ".git"@);
            let staging_git = crate::path::child(staging_parent, "git"@);
            let steps = crate::worktree::initialize_steps(
                path,
                repos,
                staging_parent,
                final_parent,
                final_git,
            );
            let run = crate::worktree::steps_run(steps.skip(done), talk);
            let now = holders_now(first, run.talk);
            &&& kept(first, run.talk, now)
            &&& now == set![crate::path::parts(inline_git)] || now == set![
                crate::path::parts(staging_git),
            ] || now == set![crate::path::parts(final_git)]
            &&& worked(run) ==> now == set![
                crate::path::parts(final_git),
            ]
        }),
    decreases 12 - done,
{
    let inline_git = crate::path::child(path, ".git"@);
    let staging_git = crate::path::child(staging_parent, "git"@);
    let steps = crate::worktree::initialize_steps(
        path,
        repos,
        staging_parent,
        final_parent,
        final_git,
    );
    assert(steps.len() == 12);
    if done < 12 {
        let step = steps[done];
        let here = place_after(done, inline_git, staging_git, final_git);
        let there = place_after(done + 1, inline_git, staging_git, final_git);
        assert(set![there].contains(there));
        assert(effect(set![here], request_of(step), ReplyView::Done) == set![there]) by {
            let none = Seq::<Part>::empty();
            if done == 2 {
                let inline = crate::path::parts(inline_git);
                let staging = crate::path::parts(staging_git);
                lemma_move_whole(inline, staging, none);
                assert(inline + none =~= inline);
                assert(staging + none =~= staging);
            } else if done == 7 {
                crate::worktree_facts::lemma_fixed_names();
                crate::path_facts::join_adds_a_component(staging_parent, encode_utf8("git"@));
                let below = seq![Part::Name(encode_utf8("git"@))];
                let old_home = crate::path::parts(staging_parent);
                let new_home = crate::path::parts(final_parent);
                lemma_move_whole(old_home, new_home, below);
                assert(old_home + below =~= crate::path::parts(staging_git));
                assert(new_home + below =~= crate::path::parts(final_git));
            } else {
                assert(harmless(request_of(step)));
            }
        }
        lemma_step(first, talk, set![here], set![there], step);
        let one = crate::worktree::step_run(step, talk);
        assert(steps.skip(done)[0] == step);
        assert(steps.skip(done).drop_first() =~= steps.skip(done + 1));
        if worked(one) {
            lemma_plan(
                first,
                one.talk,
                path,
                repos,
                staging_parent,
                final_parent,
                final_git,
                done + 1,
            );
        }
    }
}

/// The places that an initialization uses: the repository is apart from its stores, and the final
/// store is a directory `git` in its parent.
pub open spec fn well_placed(
    inline_git: Seq<u8>,
    staging_parent: Seq<u8>,
    final_parent: Seq<u8>,
    final_git: Seq<u8>,
) -> bool {
    &&& apart(crate::path::child(staging_parent, "git"@), inline_git)
    &&& apart(final_git, inline_git)
    &&& !crate::path::parts(staging_parent).is_prefix_of(crate::path::parts(inline_git))
    &&& !crate::path::parts(final_parent).is_prefix_of(crate::path::parts(inline_git))
    &&& crate::path::parts(final_git) == crate::path::parts(final_parent).push(
        Part::Name(encode_utf8("git"@)),
    )
}

/// What holds of the places that an initialization uses once nothing was found at them: the
/// repository is not inside its stores, which are made next to each other.
pub open spec fn sited(
    inline_git: Seq<u8>,
    staging_parent: Seq<u8>,
    final_parent: Seq<u8>,
    final_git: Seq<u8>,
) -> bool {
    let inline = crate::path::parts(inline_git);
    let name = Part::Name(encode_utf8("git"@));
    &&& !crate::path::parts(staging_parent).is_prefix_of(inline)
    &&& !crate::path::parts(final_parent).is_prefix_of(inline)
    &&& inline.is_prefix_of(crate::path::parts(final_parent)) ==> inline.is_prefix_of(
        crate::path::parts(staging_parent),
    )
    &&& crate::path::parts(final_git) == crate::path::parts(final_parent).push(name)
    &&& inline.len() > 0 && inline.last() != name
    &&& crate::path::parts(between(inline_git)) != inline
}

/// A directory and what is inside it, seen from a place that is neither.
proof fn lemma_inside(place: Seq<Part>, home: Seq<Part>, name: Part)
    requires
        place.len() > 0,
        place.last() != name,
        !home.is_prefix_of(place),
    ensures
        !home.push(name).is_prefix_of(place),
        place.is_prefix_of(home.push(name)) <==> place.is_prefix_of(home),
        home.push(name) != place,
{
    let whole = home.push(name);
    if whole.is_prefix_of(place) {
        assert(place.subrange(0, home.len() as int) =~= place.subrange(
            0,
            whole.len() as int,
        ).subrange(0, home.len() as int));
        assert(whole.subrange(0, home.len() as int) =~= home);
    }
    if place.len() <= home.len() {
        assert(whole.subrange(0, place.len() as int) =~= home.subrange(0, place.len() as int));
    } else if place.is_prefix_of(whole) {
        assert(whole.subrange(0, whole.len() as int) =~= whole);
        assert(place == whole);
    }
}

/// A repository cannot be moved into itself: the attempt ends an initialization before anything
/// has moved.
proof fn lemma_not_into_itself(
    first: Holders,
    talk: Talk,
    path: Seq<u8>,
    repos: Seq<u8>,
    staging_parent: Seq<u8>,
    final_parent: Seq<u8>,
    final_git: Seq<u8>,
)
    requires
        kept(first, talk, set![crate::path::parts(crate::path::child(path, ".git"@))]),
        crate::path::parts(crate::path::child(path, ".git"@)).is_prefix_of(
            crate::path::parts(crate::path::child(staging_parent, "git"@)),
        ),
        truthful(
            first,
            crate::worktree::steps_run(
                crate::worktree::initialize_steps(
                    path,
                    repos,
                    staging_parent,
                    final_parent,
                    final_git,
                ),
                talk,
            ).talk,
        ),
    ensures
        ({
            let run = crate::worktree::steps_run(
                crate::worktree::initialize_steps(
                    path,
                    repos,
                    staging_parent,
                    final_parent,
                    final_git,
                ),
                talk,
            );
            &&& !worked(run)
            &&& kept(first, run.talk, set![crate::path::parts(crate::path::child(path, ".git"@))])
        }),
{
    let inline_git = crate::path::child(path, ".git"@);
    let staging_git = crate::path::child(staging_parent, "git"@);
    let here = set![crate::path::parts(inline_git)];
    let steps = crate::worktree::initialize_steps(
        path,
        repos,
        staging_parent,
        final_parent,
        final_git,
    );
    let run = crate::worktree::steps_run(steps, talk);
    assert(here.contains(crate::path::parts(inline_git)));
    lemma_harmless(first, here);
    crate::replay::lemma_one_request();
    crate::replay::steps(12);
    let one = crate::worktree::step_run(steps[0], talk);
    let two = crate::worktree::step_run(steps[1], one.talk);
    let rename = RequestView::Rename(inline_git, staging_git);
    let three = crate::worktree::step_run(steps[2], two.talk);
    assert(steps.drop_first()[0] == steps[1]);
    assert(steps.drop_first().drop_first()[0] == steps[2]);
    reveal_with_fuel(crate::worktree::steps_run, 4);
    if worked(one) && worked(two) {
        assert(kept(first, two.talk, here));
        if worked(three) {
            let rest = steps.drop_first().drop_first().drop_first();
            assert(run == crate::worktree::steps_run(rest, three.talk));
            assert(crate::replay::grows(three.talk, run.talk, crate::replay::any()));
            lemma_truthful(first, two.talk, rename, run.talk);
        } else {
            assert(run.talk == three.talk);
            lemma_next(first, two.talk, here, rename);
        }
    }
}

/// Moving a repository into its store does not lose it: whatever fails on the way, and at every
/// moment, some place holds it. Where the move succeeds, that place is the store; where it fails
/// and the repository is brought back or had not left, it is the inline place and no other.
pub proof fn moving_in_does_not_lose(
    first: Holders,
    talk: Talk,
    path: Seq<u8>,
    repos: Seq<u8>,
    staging_parent: Seq<u8>,
    final_parent: Seq<u8>,
    final_git: Seq<u8>,
)
    requires
        kept(first, talk, set![crate::path::parts(crate::path::child(path, ".git"@))]),
        ({
            let run = crate::worktree::initialize_moves_run(
                path,
                repos,
                staging_parent,
                final_parent,
                final_git,
                talk,
            );
            let inline_git = crate::path::child(path, ".git"@);
            &&& honest(first, run.talk, crate::path::child(staging_parent, "git"@))
            &&& honest(first, run.talk, final_git)
            &&& well_placed(inline_git, staging_parent, final_parent, final_git) || (sited(
                inline_git,
                staging_parent,
                final_parent,
                final_git,
            ) && truthful(first, run.talk))
        }),
    ensures
        ({
            let run = crate::worktree::initialize_moves_run(
                path,
                repos,
                staging_parent,
                final_parent,
                final_git,
                talk,
            );
            &&& in_step(run.talk)
            &&& never_lost(first, run.talk)
            &&& worked(run) ==> kept(
                first,
                run.talk,
                set![crate::path::parts(final_git)],
            ) && outside(final_git, crate::path::child(path, ".git"@))
            &&& brought_back(
                first,
                path,
                repos,
                staging_parent,
                final_parent,
                final_git,
                talk,
            ) ==> kept(
                first,
                run.talk,
                set![crate::path::parts(crate::path::child(path, ".git"@))],
            )
        }),
{
    let inline_git = crate::path::child(path, ".git"@);
    let staging_git = crate::path::child(staging_parent, "git"@);
    let steps = crate::worktree::initialize_steps(
        path,
        repos,
        staging_parent,
        final_parent,
        final_git,
    );
    assert(steps.skip(0) =~= steps);
    lemma_plan(first, talk, path, repos, staging_parent, final_parent, final_git, 0);
    let done = crate::worktree::steps_run(steps, talk);
    let inline = crate::path::parts(inline_git);
    let staging = crate::path::parts(staging_git);
    let name = Part::Name(encode_utf8("git"@));
    lemma_own_prefix(inline);
    if !well_placed(inline_git, staging_parent, final_parent, final_git) {
        let run = crate::worktree::initialize_moves_run(
            path,
            repos,
            staging_parent,
            final_parent,
            final_git,
            talk,
        );
        crate::replay::lemma_one_request();
        crate::replay::rollback(
            inline_git,
            staging_git,
            final_git,
            staging_parent,
            final_parent,
        );
        assert(crate::replay::grows(done.talk, run.talk, crate::replay::any()));
        lemma_truthful_earlier(first, done.talk, run.talk);
        crate::worktree_facts::lemma_fixed_names();
        crate::path_facts::join_adds_a_component(staging_parent, encode_utf8("git"@));
        lemma_inside(inline, crate::path::parts(staging_parent), name);
        lemma_inside(inline, crate::path::parts(final_parent), name);
        if inline.is_prefix_of(staging) {
            lemma_not_into_itself(
                first,
                talk,
                path,
                repos,
                staging_parent,
                final_parent,
                final_git,
            );
        } else {
            assert(outside(staging_git, inline_git));
            assert(outside(final_git, inline_git));
        }
    }
    if done.out is Some && done.out->0 is Err {
        rollback_does_not_lose(
            first,
            done.talk,
            holders_now(first, done.talk),
            inline_git,
            staging_git,
            final_git,
            staging_parent,
            final_parent,
        );
    }
}

/// Making a shared repository an inline one again does not lose it, whatever fails on the way,
/// and where its move succeeds, it is at its inline place.
pub proof fn restoration_does_not_lose(
    first: Holders,
    talk: Talk,
    git: Seq<u8>,
    shared_git_dir: Seq<u8>,
)
    requires
        kept(first, talk, set![crate::path::parts(shared_git_dir)]),
        movable(
            first,
            shared_git_dir,
            git,
            crate::worktree::bring_back_run(git, shared_git_dir, talk).talk,
        ),
    ensures
        ({
            let run = crate::worktree::bring_back_run(git, shared_git_dir, talk);
            &&& in_step(run.talk)
            &&& never_lost(first, run.talk)
            &&& worked(run) ==> kept(
                first,
                run.talk,
                set![crate::path::parts(git)],
            )
        }),
{
    lemma_move_of_bring_back(first, talk, git, shared_git_dir);
    move_does_not_lose(first, talk, shared_git_dir, git);
    let moved = crate::worktree::move_dir_run(shared_git_dir, git, talk);
    lemma_harmless(first, holders_now(first, moved.talk));
}

/// What makes a repository movable while it is brought back makes it so for the move alone.
proof fn lemma_move_of_bring_back(
    first: Holders,
    talk: Talk,
    git: Seq<u8>,
    shared_git_dir: Seq<u8>,
)
    requires
        movable(
            first,
            shared_git_dir,
            git,
            crate::worktree::bring_back_run(git, shared_git_dir, talk).talk,
        ),
    ensures
        movable(
            first,
            shared_git_dir,
            git,
            crate::worktree::move_dir_run(shared_git_dir, git, talk).talk,
        ),
{
    let run = crate::worktree::bring_back_run(git, shared_git_dir, talk);
    let moved = crate::worktree::move_dir_run(shared_git_dir, git, talk);
    crate::replay::lemma_one_request();
    crate::replay::settle_inline(git, shared_git_dir);
    assert(crate::replay::grows(moved.talk, run.talk, crate::replay::any()));
    if truthful(first, run.talk) {
        lemma_truthful_earlier(first, moved.talk, run.talk);
    }
}

/// Making a shared repository an inline one again does not lose it, from the first check on. Where
/// that succeeds, the repository is at its inline place and nowhere else.
pub proof fn restore_inline_root_does_not_lose(
    first: Holders,
    talk: Talk,
    worktree: Seq<u8>,
    shared_git_dir: Seq<u8>,
)
    requires
        kept(first, talk, set![crate::path::parts(shared_git_dir)]),
        movable(
            first,
            shared_git_dir,
            crate::path::child(worktree, ".git"@),
            crate::worktree::restore_inline_root_run(worktree, shared_git_dir, talk).talk,
        ),
        honest(
            first,
            crate::worktree::restore_inline_root_run(worktree, shared_git_dir, talk).talk,
            shared_git_dir,
        ),
    ensures
        ({
            let git = crate::path::child(worktree, ".git"@);
            let run = crate::worktree::restore_inline_root_run(worktree, shared_git_dir, talk);
            &&& in_step(run.talk)
            &&& never_lost(first, run.talk)
            &&& worked(run) ==> kept(first, run.talk, set![crate::path::parts(git)])
        }),
{
    let git = crate::path::child(worktree, ".git"@);
    let now = set![crate::path::parts(shared_git_dir)];
    lemma_harmless(first, now);
    let blocked = crate::worktree::blocked_run(git, shared_git_dir, talk);
    assert(kept(first, blocked.talk, now));
    let left = crate::worktree::restorable_run(git, shared_git_dir, blocked.talk);
    assert(kept(first, left.talk, now));
    let valid = crate::worktree::validate_restore_run(worktree, shared_git_dir, talk);
    assert(kept(first, valid.talk, now));
    if worked(valid) {
        let there = valid.talk.ask_flag(RequestView::Exists(git));
        if there.out == Some(Ok::<bool, ErrorView>(false)) {
            restoration_does_not_lose(first, there.talk, git, shared_git_dir);
        } else if there.out is Some {
            let seen = there.talk.ask_kind(RequestView::Inspect(git));
            assert(kept(first, seen.talk, now));
            if worked(seen) {
                if seen.out->0->Ok_0 == EntryKind::Directory {
                    let shared = seen.talk.ask_flag(RequestView::Exists(shared_git_dir));
                    let settled = crate::worktree::settle_inline_run(
                        git,
                        shared_git_dir,
                        shared.talk,
                    );
                    assert(kept(first, settled.talk, now));
                    if shared.out == Some(Ok::<bool, ErrorView>(false)) {
                        let run = crate::worktree::restore_inline_root_run(
                            worktree,
                            shared_git_dir,
                            talk,
                        );
                        crate::replay::lemma_one_request();
                        crate::replay::settle_inline(git, shared_git_dir);
                        assert(run.talk == settled.talk);
                        lemma_honest(first, seen.talk, shared_git_dir, run.talk);
                        assert(now.contains(crate::path::parts(shared_git_dir)));
                    }
                } else {
                    let gone = seen.talk.perform(RequestView::RemoveFile(git));
                    if worked(gone) {
                        restoration_does_not_lose(first, gone.talk, git, shared_git_dir);
                    }
                }
            }
        }
    }
}

/// Whether neither of two directories lies in the other.
pub open spec fn elsewhere(a: Seq<u8>, b: Seq<u8>) -> bool {
    &&& !crate::path::parts(a).is_prefix_of(crate::path::parts(b))
    &&& !crate::path::parts(b).is_prefix_of(crate::path::parts(a))
}

proof fn lemma_elsewhere(p: Seq<Part>, r: Seq<Part>, a: Seq<Part>, b: Seq<Part>)
    requires
        !p.is_prefix_of(r),
        !r.is_prefix_of(p),
    ensures
        !(p + a).is_prefix_of(r + b),
{
    if (p + a).is_prefix_of(r + b) {
        let front = (r + b).subrange(0, (p + a).len() as int);
        assert(front == p + a);
        if p.len() <= r.len() {
            assert forall|i: int| 0 <= i < p.len() implies r.subrange(0, p.len() as int)[i]
                == p[i] by {
                assert(front[i] == (r + b)[i]);
                assert((p + a)[i] == p[i]);
            }
            assert(r.subrange(0, p.len() as int) =~= p);
        } else {
            assert forall|i: int| 0 <= i < r.len() implies p.subrange(0, r.len() as int)[i]
                == r[i] by {
                assert(front[i] == (r + b)[i]);
                assert((p + a)[i] == p[i]);
            }
            assert(p.subrange(0, r.len() as int) =~= r);
        }
    }
}

/// A store that is kept elsewhere than the working tree is well placed.
pub proof fn store_elsewhere_is_well_placed(
    path: Seq<u8>,
    root_id: Seq<char>,
    repo_storage: Seq<u8>,
)
    requires
        crate::path_facts::plain(encode_utf8(root_id)),
        elsewhere(path, repo_storage),
    ensures
        ({
            let final_git = crate::worktree::shared_git_dir_of(repo_storage, root_id);
            let final_parent = crate::path::parent_of(final_git)->0;
            &&& crate::path::parent_of(final_git) is Some
            &&& well_placed(
                crate::path::child(path, ".git"@),
                crate::path::with_extension_of(final_parent, encode_utf8("tmp"@)),
                final_parent,
                final_git,
            )
        }),
{
    let id = encode_utf8(root_id);
    let git = encode_utf8("git"@);
    let dot_git = encode_utf8(".git"@);
    let tmp = encode_utf8("tmp"@);
    let long = encode_utf8("rift-restore-tmp"@);
    crate::worktree_facts::lemma_fixed_names();
    lemma_extensions();
    let home = crate::path::joined(repo_storage, id);
    let final_git = crate::path::joined(home, git);
    let inline_git = crate::path::joined(path, dot_git);
    let p = crate::path::parts(path);
    let r = crate::path::parts(repo_storage);
    crate::path_facts::join_adds_a_component(repo_storage, id);
    crate::path_facts::join_adds_a_component(home, git);
    crate::path_facts::join_adds_a_component(path, dot_git);
    crate::path_facts::parent_undoes_join(home, git);
    let final_parent = crate::path::parent_of(final_git)->0;
    crate::worktree_facts::lemma_last_name(home, final_parent);
    crate::path_facts::extension_changes_the_last_component(final_parent, tmp);
    let staging_parent = crate::path::with_extension_of(final_parent, tmp);
    let staging_name = crate::path::parts(staging_parent).last();
    crate::path_facts::join_adds_a_component(staging_parent, git);
    crate::path_facts::extension_changes_the_last_component(inline_git, long);
    let middle = crate::path::parts(between(inline_git));
    let middle_name = middle.last();
    assert(crate::path::parts(inline_git) =~= p + seq![Part::Name(dot_git)]);
    assert(middle =~= p + seq![middle_name]);
    assert(crate::path::parts(final_parent) =~= r + seq![Part::Name(id)]);
    assert(crate::path::parts(final_git) =~= r + seq![Part::Name(id), Part::Name(git)]);
    assert(crate::path::parts(staging_parent) =~= r + seq![staging_name]);
    let staging_git = crate::path::joined(staging_parent, git);
    assert(crate::path::parts(staging_git) =~= r + seq![staging_name, Part::Name(git)]);
    lemma_elsewhere(p, r, seq![Part::Name(dot_git)], seq![Part::Name(id), Part::Name(git)]);
    lemma_elsewhere(p, r, seq![Part::Name(dot_git)], seq![staging_name, Part::Name(git)]);
    lemma_elsewhere(p, r, seq![middle_name], seq![Part::Name(id), Part::Name(git)]);
    lemma_elsewhere(p, r, seq![middle_name], seq![staging_name, Part::Name(git)]);
    lemma_elsewhere(r, p, seq![Part::Name(id), Part::Name(git)], seq![Part::Name(dot_git)]);
    lemma_elsewhere(r, p, seq![staging_name, Part::Name(git)], seq![Part::Name(dot_git)]);
    lemma_elsewhere(r, p, seq![Part::Name(id)], seq![Part::Name(dot_git)]);
    lemma_elsewhere(r, p, seq![staging_name], seq![Part::Name(dot_git)]);
    assert(middle != crate::path::parts(inline_git)) by {
        assert(crate::path::name_of(inline_git) == Some(dot_git));
        let stem = dot_git.take(crate::path::stem_len(dot_git, dot_git.len() as int));
        let fresh = stem + seq![crate::path::DOT] + long;
        assert(middle_name == Part::Name(fresh));
        assert(fresh.len() > dot_git.len());
        assert(crate::path::parts(inline_git).last() == Part::Name(dot_git));
    }
}

proof fn lemma_extensions()
    ensures
        encode_utf8("tmp"@).len() == 3,
        !encode_utf8("tmp"@).contains(crate::path::SLASH),
        encode_utf8("rift-restore-tmp"@).len() == 16,
        !encode_utf8("rift-restore-tmp"@).contains(crate::path::SLASH),
        encode_utf8(".git"@).len() == 4,
        encode_utf8("git"@).len() == 3,
{
    reveal_strlit("tmp");
    reveal_strlit("rift-restore-tmp");
    reveal_strlit(".git");
    reveal_strlit("git");
    is_ascii_chars_encode_utf8("tmp"@);
    is_ascii_chars_encode_utf8("rift-restore-tmp"@);
    is_ascii_chars_encode_utf8(".git"@);
    is_ascii_chars_encode_utf8("git"@);
}

/// Wherever a store is kept, its places are known once nothing was found at them.
proof fn lemma_sited(path: Seq<u8>, root_id: Seq<char>, repo_storage: Seq<u8>)
    ensures
        ({
            let inline_git = crate::path::child(path, ".git"@);
            let final_git = crate::worktree::shared_git_dir_of(repo_storage, root_id);
            let final_parent = crate::path::parent_of(final_git)->0;
            let staging_parent = crate::path::with_extension_of(
                final_parent,
                encode_utf8("tmp"@),
            );
            let inline = crate::path::parts(inline_git);
            &&& crate::path::parent_of(final_git) is Some
            &&& !crate::path::parts(staging_parent).is_prefix_of(inline) && !crate::path::parts(
                final_parent,
            ).is_prefix_of(inline) ==> sited(inline_git, staging_parent, final_parent, final_git)
        }),
{
    let id = encode_utf8(root_id);
    let git = encode_utf8("git"@);
    let dot_git = encode_utf8(".git"@);
    let tmp = encode_utf8("tmp"@);
    let long = encode_utf8("rift-restore-tmp"@);
    crate::worktree_facts::lemma_fixed_names();
    lemma_extensions();
    let home = crate::path::joined(repo_storage, id);
    let final_git = crate::path::joined(home, git);
    let inline_git = crate::path::joined(path, dot_git);
    crate::path_facts::join_adds_a_component(home, git);
    crate::path_facts::join_adds_a_component(path, dot_git);
    crate::path_facts::parent_undoes_join(home, git);
    crate::path_facts::extension_changes_the_last_component(inline_git, long);
    let final_parent = crate::path::parent_of(final_git)->0;
    let staging_parent = crate::path::with_extension_of(final_parent, tmp);
    let inline = crate::path::parts(inline_git);
    let old_home = crate::path::parts(staging_parent);
    let new_home = crate::path::parts(final_parent);
    let stem = dot_git.take(crate::path::stem_len(dot_git, dot_git.len() as int));
    let fresh = stem + seq![crate::path::DOT] + long;
    assert(crate::path::parts(between(inline_git)).last() == Part::Name(fresh));
    assert(fresh.len() > dot_git.len());
    assert(crate::path::parts(between(inline_git)) != inline);
    if crate::path::name_of(final_parent) is Some {
        crate::path_facts::extension_changes_the_last_component(final_parent, tmp);
        if inline.is_prefix_of(new_home) && !new_home.is_prefix_of(inline) {
            if inline.len() >= new_home.len() {
                assert(new_home.subrange(0, new_home.len() as int) =~= new_home);
                lemma_own_prefix(inline);
            }
            let n = inline.len() as int;
            assert(n < new_home.len());
            assert(old_home.subrange(0, n) =~= new_home.subrange(0, n)) by {
                assert forall|i: int| 0 <= i < n implies old_home[i] == new_home[i] by {
                    assert(new_home.drop_last()[i] == new_home[i]);
                }
            }
        }
    }
}

/// The conversation of an initialization once all checks have passed.
pub open spec fn after_checks(
    path: Seq<u8>,
    root_id: Seq<char>,
    repo_storage: Seq<u8>,
    talk: Talk,
) -> Talk {
    let final_git = crate::worktree::shared_git_dir_of(repo_storage, root_id);
    let final_parent = crate::path::parent_of(final_git)->0;
    let staging_parent = crate::path::with_extension_of(final_parent, encode_utf8("tmp"@));
    let inside = crate::worktree::real_directory_run(crate::path::child(path, ".git"@), talk);
    let top = crate::worktree::ensure_toplevel_run(path, inside.talk);
    top.talk.after(RequestView::Exists(final_parent)).after(RequestView::Exists(staging_parent))
}

/// Initializing a root does not lose its repository, from the first check on, where nothing but the
/// repository ever gets into the store. Where it succeeds, the repository is in the store; where it
/// fails and the repository is brought back or had not left, it is at its inline place and nowhere
/// else. This holds of all answers where the store is well placed, and of all possible answers
/// wherever it is.
pub proof fn initialize_root_does_not_lose(
    first: Holders,
    talk: Talk,
    path: Seq<u8>,
    root_id: Seq<char>,
    repo_storage: Seq<u8>,
)
    requires
        kept(first, talk, set![crate::path::parts(crate::path::child(path, ".git"@))]),
        ({
            let run = crate::worktree::initialize_root_run(path, root_id, repo_storage, talk);
            let final_git = crate::worktree::shared_git_dir_of(repo_storage, root_id);
            let final_parent = crate::path::parent_of(final_git)->0;
            let staging_parent = crate::path::with_extension_of(
                final_parent,
                encode_utf8("tmp"@),
            );
            &&& honest(first, run.talk, crate::path::child(staging_parent, "git"@))
            &&& honest(first, run.talk, final_git)
            &&& well_placed(
                crate::path::child(path, ".git"@),
                staging_parent,
                final_parent,
                final_git,
            ) || truthful(first, run.talk)
        }),
    ensures
        ({
            let run = crate::worktree::initialize_root_run(path, root_id, repo_storage, talk);
            let final_git = crate::worktree::shared_git_dir_of(repo_storage, root_id);
            let final_parent = crate::path::parent_of(final_git)->0;
            let repos = crate::path::parent_of(final_parent)->0;
            let staging_parent = crate::path::with_extension_of(
                final_parent,
                encode_utf8("tmp"@),
            );
            let inline_git = crate::path::child(path, ".git"@);
            &&& in_step(run.talk)
            &&& never_lost(first, run.talk)
            &&& worked(run) ==> run.out == Some(Ok::<Seq<u8>, ErrorView>(final_git)) && kept(
                first,
                run.talk,
                set![crate::path::parts(final_git)],
            ) && outside(final_git, inline_git)
            &&& run.out is Some && run.out->0 is Err && brought_back(
                first,
                path,
                repos,
                staging_parent,
                final_parent,
                final_git,
                after_checks(path, root_id, repo_storage, talk),
            ) ==> kept(first, run.talk, set![crate::path::parts(inline_git)])
        }),
{
    let inline_git = crate::path::child(path, ".git"@);
    let now = set![crate::path::parts(inline_git)];
    let final_git = crate::worktree::shared_git_dir_of(repo_storage, root_id);
    let final_parent = crate::path::parent_of(final_git)->0;
    let staging_parent = crate::path::with_extension_of(final_parent, encode_utf8("tmp"@));
    lemma_sited(path, root_id, repo_storage);
    lemma_harmless(first, now);
    let inside = crate::worktree::real_directory_run(inline_git, talk);
    assert(kept(first, inside.talk, now));
    if inside.out == Some(Ok::<bool, ErrorView>(true)) {
        let top = crate::worktree::ensure_toplevel_run(path, inside.talk);
        assert(kept(first, top.talk, now));
        if worked(top) {
            let in_final = top.talk.ask_flag(RequestView::Exists(final_parent));
            let in_staging = in_final.talk.ask_flag(RequestView::Exists(staging_parent));
            assert(kept(first, in_final.talk, now));
            assert(kept(first, in_staging.talk, now));
            if in_final.out == Some(Ok::<bool, ErrorView>(false)) && in_staging.out == Some(
                Ok::<bool, ErrorView>(false),
            ) {
                if let Some(repos) = crate::path::parent_of(final_parent) {
                    let run = crate::worktree::initialize_root_run(
                        path,
                        root_id,
                        repo_storage,
                        talk,
                    );
                    if truthful(first, run.talk) {
                        crate::replay::lemma_one_request();
                        crate::replay::initialize_moves(
                            path,
                            repos,
                            staging_parent,
                            final_parent,
                            final_git,
                        );
                        assert(crate::replay::grows(
                            in_staging.talk,
                            run.talk,
                            crate::replay::any(),
                        ));
                        lemma_truthful(
                            first,
                            top.talk,
                            RequestView::Exists(final_parent),
                            run.talk,
                        );
                        lemma_truthful(
                            first,
                            in_final.talk,
                            RequestView::Exists(staging_parent),
                            run.talk,
                        );
                        assert(now.contains(crate::path::parts(inline_git)));
                    }
                    moving_in_does_not_lose(
                        first,
                        in_staging.talk,
                        path,
                        repos,
                        staging_parent,
                        final_parent,
                        final_git,
                    );
                }
            }
        }
    }
}

/// The requests that end every restoration that succeeds: the repository is told that it lies
/// inside its working tree, and the directory that held the store is removed if it is empty now.
pub open spec fn last_requests(git: Seq<u8>, shared_git_dir: Seq<u8>) -> Seq<RequestView> {
    seq![
        RequestView::GitVisibly(
            PlaceView::GitDir(git),
            seq!["config"@, "--unset"@, "core.worktree"@],
        ),
        RequestView::Git(PlaceView::GitDir(git), seq!["config"@, "core.bare"@, "false"@]),
        RequestView::RemoveDir(crate::path::parent_of(shared_git_dir)->0),
    ]
}

/// Whether a conversation ended with the requests that end a restoration, and Git did as it was
/// told when it was told that the repository is not bare.
pub open spec fn settled(git: Seq<u8>, shared_git_dir: Seq<u8>, talk: Talk) -> bool {
    let n = talk.asked.len();
    &&& last_requests(git, shared_git_dir).is_suffix_of(talk.asked)
    &&& n <= talk.answers.len()
    &&& talk.answers[n - 2] matches ReplyView::Printed(output) && output.success
}

proof fn lemma_settled(git: Seq<u8>, shared_git_dir: Seq<u8>, talk: Talk)
    requires
        in_step(talk),
        crate::path::parent_of(shared_git_dir) is Some,
        worked(crate::worktree::settle_inline_run(git, shared_git_dir, talk)),
    ensures
        settled(
            git,
            shared_git_dir,
            crate::worktree::settle_inline_run(git, shared_git_dir, talk).talk,
        ),
{
    let unset = last_requests(git, shared_git_dir)[0];
    let bare = last_requests(git, shared_git_dir)[1];
    let remove = last_requests(git, shared_git_dir)[2];
    let one = talk.attempt(unset);
    let two = one.talk.ask_output(bare);
    let run = crate::worktree::settle_inline_run(git, shared_git_dir, talk);
    let n = talk.asked.len() as int;
    assert(talk.asked.len() + 3 <= talk.answers.len()) by {
        assert(talk.rest.len() > 0);
        assert(one.talk.rest.len() > 0);
        assert(two.talk.rest.len() > 0);
        assert(talk.answers.skip(answered(talk) as int).len() == talk.rest.len());
    }
    assert(run.talk.asked =~= talk.asked.push(unset).push(bare).push(remove));
    assert(run.talk.asked.subrange(n, n + 3) =~= last_requests(git, shared_git_dir));
    assert(one.talk.rest[0] == talk.rest[1]);
    assert(talk.rest[1] == talk.answers[n + 1]);
    assert(run.talk.answers == talk.answers);
}

/// A restoration that succeeds ends with the repository told where it lies, and with the
/// directory that held the store removed if it is empty.
pub proof fn restored_repository_is_settled(
    first: Holders,
    talk: Talk,
    worktree: Seq<u8>,
    shared_git_dir: Seq<u8>,
)
    requires
        kept(first, talk, set![crate::path::parts(shared_git_dir)]),
        movable(
            first,
            shared_git_dir,
            crate::path::child(worktree, ".git"@),
            crate::worktree::restore_inline_root_run(worktree, shared_git_dir, talk).talk,
        ),
        crate::path::parent_of(shared_git_dir) is Some,
        worked(crate::worktree::restore_inline_root_run(worktree, shared_git_dir, talk)),
    ensures
        settled(
            crate::path::child(worktree, ".git"@),
            shared_git_dir,
            crate::worktree::restore_inline_root_run(worktree, shared_git_dir, talk).talk,
        ),
{
    let git = crate::path::child(worktree, ".git"@);
    let now = set![crate::path::parts(shared_git_dir)];
    lemma_harmless(first, now);
    let blocked = crate::worktree::blocked_run(git, shared_git_dir, talk);
    assert(kept(first, blocked.talk, now));
    let left = crate::worktree::restorable_run(git, shared_git_dir, blocked.talk);
    assert(kept(first, left.talk, now));
    let valid = crate::worktree::validate_restore_run(worktree, shared_git_dir, talk);
    assert(kept(first, valid.talk, now));
    let there = valid.talk.ask_flag(RequestView::Exists(git));
    assert(kept(first, there.talk, now));
    if there.out == Some(Ok::<bool, ErrorView>(false)) {
        lemma_brought_back_settled(first, there.talk, git, shared_git_dir);
    } else {
        let seen = there.talk.ask_kind(RequestView::Inspect(git));
        assert(kept(first, seen.talk, now));
        if seen.out->0->Ok_0 == EntryKind::Directory {
            let shared = seen.talk.ask_flag(RequestView::Exists(shared_git_dir));
            assert(kept(first, shared.talk, now));
            lemma_settled(git, shared_git_dir, shared.talk);
        } else {
            let gone = seen.talk.perform(RequestView::RemoveFile(git));
            assert(kept(first, gone.talk, now));
            lemma_brought_back_settled(first, gone.talk, git, shared_git_dir);
        }
    }
}

proof fn lemma_brought_back_settled(
    first: Holders,
    talk: Talk,
    git: Seq<u8>,
    shared_git_dir: Seq<u8>,
)
    requires
        kept(first, talk, set![crate::path::parts(shared_git_dir)]),
        movable(
            first,
            shared_git_dir,
            git,
            crate::worktree::bring_back_run(git, shared_git_dir, talk).talk,
        ),
        crate::path::parent_of(shared_git_dir) is Some,
        worked(crate::worktree::bring_back_run(git, shared_git_dir, talk)),
    ensures
        settled(
            git,
            shared_git_dir,
            crate::worktree::bring_back_run(git, shared_git_dir, talk).talk,
        ),
{
    lemma_move_of_bring_back(first, talk, git, shared_git_dir);
    move_does_not_lose(first, talk, shared_git_dir, git);
    let moved = crate::worktree::move_dir_run(shared_git_dir, git, talk);
    lemma_settled(git, shared_git_dir, moved.talk);
}

/// An initialization that succeeds names the store.
proof fn lemma_result_is_the_store(
    path: Seq<u8>,
    root_id: Seq<char>,
    repo_storage: Seq<u8>,
    talk: Talk,
)
    requires
        worked(crate::worktree::initialize_root_run(path, root_id, repo_storage, talk)),
    ensures
        crate::worktree::initialize_root_run(path, root_id, repo_storage, talk).out == Some(
            Ok::<Seq<u8>, ErrorView>(crate::worktree::shared_git_dir_of(repo_storage, root_id)),
        ),
{
}

/// Restoring after initializing undoes it. Where both succeed, the repository is in between in the
/// store and nowhere else, and in the end at its inline place and nowhere else, where it was at the
/// start; it has been told that it lies inside its working tree, and the directory that held the
/// store is removed if it is empty. This holds of all answers where the store is well placed, and of
/// all possible answers wherever it is.
pub proof fn restoration_undoes_initialization(
    first: Holders,
    talk: Talk,
    later: Talk,
    path: Seq<u8>,
    root_id: Seq<char>,
    repo_storage: Seq<u8>,
)
    requires
        kept(first, talk, set![crate::path::parts(crate::path::child(path, ".git"@))]),
        later == crate::replay::beginning(later.answers),
        ({
            let made = crate::worktree::initialize_root_run(path, root_id, repo_storage, talk);
            let final_git = crate::worktree::shared_git_dir_of(repo_storage, root_id);
            let final_parent = crate::path::parent_of(final_git)->0;
            let staging_parent = crate::path::with_extension_of(
                final_parent,
                encode_utf8("tmp"@),
            );
            &&& worked(made)
            &&& honest(first, made.talk, crate::path::child(staging_parent, "git"@))
            &&& honest(first, made.talk, final_git)
        }),
        ({
            let made = crate::worktree::initialize_root_run(path, root_id, repo_storage, talk);
            let shared_git_dir = made.out->0->Ok_0;
            let undone = crate::worktree::restore_inline_root_run(path, shared_git_dir, later);
            let final_parent = crate::path::parent_of(shared_git_dir)->0;
            let between_times = holders_now(first, made.talk);
            &&& worked(undone)
            &&& honest(between_times, undone.talk, shared_git_dir)
            &&& well_placed(
                crate::path::child(path, ".git"@),
                crate::path::with_extension_of(final_parent, encode_utf8("tmp"@)),
                final_parent,
                shared_git_dir,
            ) || (truthful(first, made.talk) && truthful(between_times, undone.talk))
        }),
    ensures
        ({
            let made = crate::worktree::initialize_root_run(path, root_id, repo_storage, talk);
            let shared_git_dir = made.out->0->Ok_0;
            let undone = crate::worktree::restore_inline_root_run(path, shared_git_dir, later);
            let inline_git = crate::path::child(path, ".git"@);
            let between_times = holders_now(first, made.talk);
            &&& shared_git_dir == crate::worktree::shared_git_dir_of(repo_storage, root_id)
            &&& kept(first, made.talk, set![crate::path::parts(shared_git_dir)])
            &&& kept(between_times, undone.talk, set![crate::path::parts(inline_git)])
            &&& settled(inline_git, shared_git_dir, undone.talk)
        }),
{
    let made = crate::worktree::initialize_root_run(path, root_id, repo_storage, talk);
    let final_git = crate::worktree::shared_git_dir_of(repo_storage, root_id);
    lemma_result_is_the_store(path, root_id, repo_storage, talk);
    lemma_sited(path, root_id, repo_storage);
    initialize_root_does_not_lose(first, talk, path, root_id, repo_storage);
    let stored = set![crate::path::parts(final_git)];
    assert(stored.contains(crate::path::parts(final_git)));
    nothing_is_lost_at_the_beginning(stored, later.answers);
    restore_inline_root_does_not_lose(stored, later, path, final_git);
    restored_repository_is_settled(stored, later, path, final_git);
}

/// The requests of a restoration that finds the repository at its inline place already.
pub open spec fn requests_of_second_restoration(
    git: Seq<u8>,
    shared_git_dir: Seq<u8>,
) -> Seq<RequestView> {
    seq![
        RequestView::Exists(git),
        RequestView::Inspect(git),
        RequestView::Exists(shared_git_dir),
        RequestView::IsDir(git),
        RequestView::Exists(git),
        RequestView::Inspect(git),
        RequestView::Exists(shared_git_dir),
    ] + last_requests(git, shared_git_dir)
}

/// Restoring once more succeeds and leaves the repository at its inline place: it is looked at,
/// told again where it lies, and not moved.
pub proof fn restoring_again_leaves_the_repository(
    first: Holders,
    talk: Talk,
    worktree: Seq<u8>,
    shared_git_dir: Seq<u8>,
    output: OutputView,
)
    requires
        kept(first, talk, set![crate::path::parts(crate::path::child(worktree, ".git"@))]),
        crate::path::parent_of(shared_git_dir) is Some,
        talk.rest.len() >= 10,
        talk.rest.take(7) == seq![
            ReplyView::Flag(true),
            ReplyView::Kind(EntryKind::Directory),
            ReplyView::Flag(false),
            ReplyView::Flag(true),
            ReplyView::Flag(true),
            ReplyView::Kind(EntryKind::Directory),
            ReplyView::Flag(false),
        ],
        talk.rest[8] == ReplyView::Printed(output),
        output.success,
    ensures
        ({
            let git = crate::path::child(worktree, ".git"@);
            let run = crate::worktree::restore_inline_root_run(worktree, shared_git_dir, talk);
            &&& run.out == Some(Ok::<(), ErrorView>(()))
            &&& run.talk.asked == talk.asked + requests_of_second_restoration(git, shared_git_dir)
            &&& kept(first, run.talk, set![crate::path::parts(git)])
        }),
{
    let git = crate::path::child(worktree, ".git"@);
    let now = set![crate::path::parts(git)];
    let seven = talk.rest.take(7);
    lemma_harmless(first, now);
    let t1 = talk.after(RequestView::Exists(git));
    let t2 = t1.after(RequestView::Inspect(git));
    let t3 = t2.after(RequestView::Exists(shared_git_dir));
    let t4 = t3.after(RequestView::IsDir(git));
    let t5 = t4.after(RequestView::Exists(git));
    let t6 = t5.after(RequestView::Inspect(git));
    let t7 = t6.after(RequestView::Exists(shared_git_dir));
    let t8 = t7.after(last_requests(git, shared_git_dir)[0]);
    assert(talk.rest[0] == seven[0]);
    assert(t1.rest[0] == seven[1]);
    assert(t2.rest[0] == seven[2]);
    assert(t3.rest[0] == seven[3]);
    assert(t4.rest[0] == seven[4]);
    assert(t5.rest[0] == seven[5]);
    assert(t6.rest[0] == seven[6]);
    assert(t8.rest[0] == talk.rest[8]);
    let blocked = crate::worktree::blocked_run(git, shared_git_dir, talk);
    assert(blocked.talk == t3 && blocked.out == Some(Ok::<bool, ErrorView>(false)));
    let valid = crate::worktree::validate_restore_run(worktree, shared_git_dir, talk);
    assert(valid.talk == t4 && valid.out == Some(Ok::<(), ErrorView>(())));
    let run = crate::worktree::restore_inline_root_run(worktree, shared_git_dir, talk);
    assert(run == crate::worktree::settle_inline_run(git, shared_git_dir, t7));
    assert(run.talk.asked =~= talk.asked + requests_of_second_restoration(git, shared_git_dir));
}

} // verus!
