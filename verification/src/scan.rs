//! The course of a scan over a tree, worker by worker.
//!
//! The tree is what the listings give: for each directory its entries, or
//! nothing where it cannot be read. One turn of a worker takes the
//! directory at the head of the work queue, lists it, publishes its batch
//! if it is not empty, and queues the directories found in it.
//!
//! The first part takes the turns one after the other. The second part
//! lets the workers run side by side: a worker takes a directory from the
//! queue, and some time later, while others take and finish theirs, it
//! finishes and queues what it found. Whatever the order of these moves,
//! there are two of them for each directory, and then the scan is at
//! rest.

use vstd::prelude::*;
use crate::entry::{EntryKind, EntryView};
use crate::filter::Filters;
use crate::worker::{batch_of, is_listed_dir, law_batch_shares_parent, law_directories_pass_every_filter,
    law_queued_are_directories, law_same_listing_same_batch, subdirs_of, DirChildView};
use crate::worker_queue::{law_every_directory_is_listed, lemma_turns_same_found, lemma_work_left_add,
    lemma_work_left_first, no_thread_lost, quiescent, turns, work_left, QueueView};

verus! {

/// The directories that a worker queues after it tried to list `dir`:
/// none, where the directory cannot be read.
pub open spec fn found_in(
    filters: &Filters,
    listing: spec_fn(Seq<u8>) -> Option<Seq<DirChildView>>,
    dir: Seq<u8>,
) -> Seq<Seq<u8>> {
    match listing(dir) {
        Some(children) => subdirs_of(filters, dir, children),
        None => Seq::empty(),
    }
}

/// The batch that a worker makes after it tried to list `dir`: an empty
/// one, which is not published, where the directory cannot be read.
pub open spec fn batch_in(
    filters: &Filters,
    listing: spec_fn(Seq<u8>) -> Option<Seq<DirChildView>>,
    dir: Seq<u8>,
) -> Seq<EntryView> {
    match listing(dir) {
        Some(children) => batch_of(filters, dir, children),
        None => Seq::empty(),
    }
}

/// The work queue after `n` turns of a scan.
pub open spec fn scan_turns(
    filters: &Filters,
    listing: spec_fn(Seq<u8>) -> Option<Seq<DirChildView>>,
    v: QueueView<Seq<u8>>,
    n: nat,
) -> QueueView<Seq<u8>> {
    turns(v, |d: Seq<u8>| found_in(filters, listing, d), n)
}

/// The batches that the first `n` turns of a scan publish, in their
/// order.
pub open spec fn published(
    filters: &Filters,
    listing: spec_fn(Seq<u8>) -> Option<Seq<DirChildView>>,
    v: QueueView<Seq<u8>>,
    n: nat,
) -> Seq<Seq<EntryView>>
    decreases n,
{
    if n == 0 {
        Seq::empty()
    } else {
        let before = scan_turns(filters, listing, v, (n - 1) as nat);
        let rest = published(filters, listing, v, (n - 1) as nat);
        if before.items.len() > 0 && batch_in(filters, listing, before.items[0]).len() > 0 {
            rest.push(batch_in(filters, listing, before.items[0]))
        } else {
            rest
        }
    }
}

/// A scan of a finite tree ends, and not before every directory was
/// listed. Let each directory weigh the number of directories at and
/// below it, those that cannot be read among them. Then after one turn
/// for each directory the work queue is empty, so that every worker parks
/// and the queue is quiescent; after fewer turns it is not empty and not
/// quiescent; and no thread is lost on the way, whatever the listings
/// gave.
pub proof fn law_scan_lists_every_directory(
    filters: &Filters,
    listing: spec_fn(Seq<u8>) -> Option<Seq<DirChildView>>,
    weight: spec_fn(Seq<u8>) -> nat,
    v: QueueView<Seq<u8>>,
    k: nat,
)
    requires
        forall|d: Seq<u8>| #[trigger] weight(d) == 1 + work_left(found_in(filters, listing, d), weight),
        k <= work_left(v.items, weight),
    ensures
        k < work_left(v.items, weight) ==> scan_turns(filters, listing, v, k).items.len() > 0 && !quiescent(
            scan_turns(filters, listing, v, k),
        ),
        k == work_left(v.items, weight) ==> scan_turns(filters, listing, v, k).items.len() == 0,
        no_thread_lost(v) ==> no_thread_lost(scan_turns(filters, listing, v, k)),
{
    let found = |d: Seq<u8>| found_in(filters, listing, d);
    assert forall|d: Seq<u8>| #[trigger] weight(d) == 1 + work_left(found(d), weight) by {
        assert(found(d) == found_in(filters, listing, d));
    }
    law_every_directory_is_listed(v, found, weight, k);
}

/// A directory that cannot be read hands on nothing, and the scan goes
/// on: it gives no batch and no directory to queue.
pub proof fn law_failed_listing_hands_on_nothing(
    filters: &Filters,
    listing: spec_fn(Seq<u8>) -> Option<Seq<DirChildView>>,
    dir: Seq<u8>,
)
    requires
        listing(dir) is None,
    ensures
        found_in(filters, listing, dir).len() == 0,
        batch_in(filters, listing, dir).len() == 0,
{
}

/// Nothing is reached through a symbolic link: every directory that a
/// turn queues is a listed entry that is itself a directory, and no batch
/// holds anything but files and directories.
pub proof fn law_links_are_never_followed(
    filters: &Filters,
    listing: spec_fn(Seq<u8>) -> Option<Seq<DirChildView>>,
    dir: Seq<u8>,
)
    ensures
        forall|i: int|
            0 <= i < found_in(filters, listing, dir).len() ==> listing(dir) is Some && is_listed_dir(
                dir,
                listing(dir)->0,
                #[trigger] found_in(filters, listing, dir)[i],
            ),
        forall|i: int|
            0 <= i < batch_in(filters, listing, dir).len() ==> (#[trigger] batch_in(
                filters,
                listing,
                dir,
            )[i]).meta.kind == EntryKind::File || batch_in(filters, listing, dir)[i].meta.kind
                == EntryKind::Dir,
{
    match listing(dir) {
        Some(children) => {
            assert forall|i: int| 0 <= i < found_in(filters, listing, dir).len() implies is_listed_dir(
                dir,
                children,
                #[trigger] found_in(filters, listing, dir)[i],
            ) by {
                law_queued_are_directories(filters, dir, children, i);
            }
            law_batch_shares_parent(filters, dir, children);
        },
        None => {},
    }
}

/// The filters stop no descent: with any two filters a scan takes the
/// same turns through the same directories.
pub proof fn law_filters_do_not_stop_descent(
    filters: &Filters,
    others: &Filters,
    listing: spec_fn(Seq<u8>) -> Option<Seq<DirChildView>>,
    v: QueueView<Seq<u8>>,
    n: nat,
)
    ensures
        scan_turns(filters, listing, v, n) == scan_turns(others, listing, v, n),
{
    let one = |d: Seq<u8>| found_in(filters, listing, d);
    let other = |d: Seq<u8>| found_in(others, listing, d);
    assert forall|d: Seq<u8>| #[trigger] one(d) == other(d) by {
        match listing(d) {
            Some(children) => {
                law_directories_pass_every_filter(filters, others, d, children);
            },
            None => {},
        }
    }
    lemma_turns_same_found(v, one, other, n);
}

/// Two scans of the same tree with the same filters publish the same
/// batches in the same order.
pub proof fn law_same_tree_same_batches(
    filters: &Filters,
    again: &Filters,
    listing: spec_fn(Seq<u8>) -> Option<Seq<DirChildView>>,
    v: QueueView<Seq<u8>>,
    n: nat,
)
    requires
        filters.re == again.re,
        filters.exclude_re == again.exclude_re,
        filters.age == again.age,
    ensures
        published(filters, listing, v, n) == published(again, listing, v, n),
    decreases n,
{
    if n > 0 {
        law_same_tree_same_batches(filters, again, listing, v, (n - 1) as nat);
        law_filters_do_not_stop_descent(filters, again, listing, v, (n - 1) as nat);
        let before = scan_turns(filters, listing, v, (n - 1) as nat);
        if before.items.len() > 0 {
            match listing(before.items[0]) {
                Some(children) => {
                    law_same_listing_same_batch(filters, again, before.items[0], children);
                },
                None => {},
            }
        }
    }
}

/// A scan under way: the directories that wait in the queue, the head
/// first, and those that workers have taken and not yet listed to the
/// end.
pub struct Course<T> {
    pub queue: Seq<T>,
    pub in_hand: Seq<T>,
}

/// What one worker does next.
pub enum Move {
    /// A worker that is free takes the head of the queue.
    Take,
    /// The worker with the directory at this place in hand finishes: it
    /// queues what it found.
    Finish(int),
}

/// Whether the move can be made with `workers` workers: a directory
/// waits and a worker is free, or the worker named has a directory in
/// hand.
pub open spec fn can_move<T>(c: Course<T>, m: Move, workers: nat) -> bool {
    match m {
        Move::Take => c.queue.len() > 0 && c.in_hand.len() < workers,
        Move::Finish(i) => 0 <= i < c.in_hand.len(),
    }
}

/// The scan after the move.
pub open spec fn moved<T>(c: Course<T>, found: spec_fn(T) -> Seq<T>, m: Move) -> Course<T> {
    match m {
        Move::Take => Course { queue: c.queue.skip(1), in_hand: c.in_hand.push(c.queue[0]) },
        Move::Finish(i) => Course { queue: c.queue + found(c.in_hand[i]), in_hand: c.in_hand.remove(i) },
    }
}

/// Whether the scan is at rest: the queue is empty and no worker has a
/// directory in hand, so that every worker is parked in a pop.
pub open spec fn at_rest<T>(c: Course<T>) -> bool {
    c.queue.len() == 0 && c.in_hand.len() == 0
}

/// The scan after the moves, made in turn.
pub open spec fn course_after<T>(c: Course<T>, found: spec_fn(T) -> Seq<T>, moves: Seq<Move>) -> Course<T>
    decreases moves.len(),
{
    if moves.len() == 0 {
        c
    } else {
        moved(course_after(c, found, moves.drop_last()), found, moves.last())
    }
}

/// Whether each of the moves can be made when its turn comes.
pub open spec fn can_run<T>(c: Course<T>, found: spec_fn(T) -> Seq<T>, moves: Seq<Move>, workers: nat) -> bool
    decreases moves.len(),
{
    moves.len() == 0 || (can_run(c, found, moves.drop_last(), workers) && can_move(
        course_after(c, found, moves.drop_last()),
        moves.last(),
        workers,
    ))
}

/// The moves that the directories in hand still need: for each, one to
/// finish it and two for every directory below it.
pub open spec fn hand_left<T>(in_hand: Seq<T>, weight: spec_fn(T) -> nat) -> int
    decreases in_hand.len(),
{
    if in_hand.len() == 0 {
        0
    } else {
        hand_left(in_hand.drop_last(), weight) + 2 * weight(in_hand.last()) - 1
    }
}

/// The moves that a scan still needs: two for every directory that waits
/// or lies below one that waits or is in hand, and one for every
/// directory in hand.
pub open spec fn moves_left<T>(c: Course<T>, weight: spec_fn(T) -> nat) -> int {
    2 * work_left(c.queue, weight) + hand_left(c.in_hand, weight)
}

/// The directories in hand without one of them need what all need, less
/// what that one needs.
pub proof fn lemma_hand_left_remove<T>(in_hand: Seq<T>, weight: spec_fn(T) -> nat, i: int)
    requires
        0 <= i < in_hand.len(),
    ensures
        hand_left(in_hand, weight) == hand_left(in_hand.remove(i), weight) + 2 * weight(in_hand[i]) - 1,
    decreases in_hand.len(),
{
    if i == in_hand.len() - 1 {
        assert(in_hand.remove(i) =~= in_hand.drop_last());
    } else {
        lemma_hand_left_remove(in_hand.drop_last(), weight, i);
        assert(in_hand.remove(i).drop_last() =~= in_hand.drop_last().remove(i));
        assert(in_hand.remove(i).last() == in_hand.last());
    }
}

/// Every directory in hand needs a move.
pub proof fn lemma_hand_left_counts<T>(in_hand: Seq<T>, weight: spec_fn(T) -> nat)
    requires
        forall|d: T| #[trigger] weight(d) >= 1,
    ensures
        hand_left(in_hand, weight) >= in_hand.len(),
    decreases in_hand.len(),
{
    if in_hand.len() > 0 {
        lemma_hand_left_counts(in_hand.drop_last(), weight);
        assert(weight(in_hand.last()) >= 1);
    }
}

/// Every directory that waits needs two moves.
pub proof fn lemma_work_left_counts<T>(queue: Seq<T>, weight: spec_fn(T) -> nat)
    requires
        forall|d: T| #[trigger] weight(d) >= 1,
    ensures
        work_left(queue, weight) >= queue.len(),
    decreases queue.len(),
{
    if queue.len() > 0 {
        lemma_work_left_counts(queue.drop_last(), weight);
        assert(weight(queue.last()) >= 1);
    }
}

/// Each move that can be made is one of those that the scan needs.
pub proof fn lemma_move_does_its_part<T>(
    c: Course<T>,
    found: spec_fn(T) -> Seq<T>,
    weight: spec_fn(T) -> nat,
    m: Move,
    workers: nat,
)
    requires
        forall|d: T| #[trigger] weight(d) == 1 + work_left(found(d), weight),
        can_move(c, m, workers),
    ensures
        moves_left(moved(c, found, m), weight) + 1 == moves_left(c, weight),
{
    match m {
        Move::Take => {
            lemma_work_left_first(c.queue, weight);
            assert(c.in_hand.push(c.queue[0]).drop_last() =~= c.in_hand);
        },
        Move::Finish(i) => {
            let d = c.in_hand[i];
            lemma_hand_left_remove(c.in_hand, weight, i);
            lemma_work_left_add(c.queue, found(d), weight);
            assert(weight(d) == 1 + work_left(found(d), weight));
        },
    }
}

/// A scan of a finite tree comes to rest, however its workers take their
/// turns. Let each directory weigh the number of directories at and
/// below it. Then every run of moves that can be made makes as many of
/// the moves that the scan needs as it is long: no run is longer than
/// that number, two for each directory that waits and one or two for
/// each in hand; a run of that length ends at rest, and a shorter one
/// does not; and while the scan is not at rest, some worker can move.
pub proof fn law_scan_comes_to_rest<T>(
    c: Course<T>,
    found: spec_fn(T) -> Seq<T>,
    weight: spec_fn(T) -> nat,
    moves: Seq<Move>,
    workers: nat,
)
    requires
        forall|d: T| #[trigger] weight(d) == 1 + work_left(found(d), weight),
        can_run(c, found, moves, workers),
        workers >= 1,
    ensures
        moves_left(course_after(c, found, moves), weight) + moves.len() == moves_left(c, weight),
        moves.len() <= moves_left(c, weight),
        at_rest(course_after(c, found, moves)) <==> moves.len() == moves_left(c, weight),
        !at_rest(course_after(c, found, moves)) ==> (can_move(
            course_after(c, found, moves),
            Move::Take,
            workers,
        ) || can_move(course_after(c, found, moves), Move::Finish(0), workers)),
    decreases moves.len(),
{
    assert forall|d: T| #[trigger] weight(d) >= 1 by {
        assert(weight(d) == 1 + work_left(found(d), weight));
    }
    if moves.len() > 0 {
        law_scan_comes_to_rest(c, found, weight, moves.drop_last(), workers);
        lemma_move_does_its_part(
            course_after(c, found, moves.drop_last()),
            found,
            weight,
            moves.last(),
            workers,
        );
    }
    let end = course_after(c, found, moves);
    lemma_hand_left_counts(end.in_hand, weight);
    lemma_work_left_counts(end.queue, weight);
}

/// A scan that starts with its root in the queue lists every directory of
/// a finite tree and comes to rest, however its workers take their turns
/// and whichever directories cannot be read.
pub proof fn law_scan_of_a_tree_comes_to_rest(
    filters: &Filters,
    listing: spec_fn(Seq<u8>) -> Option<Seq<DirChildView>>,
    weight: spec_fn(Seq<u8>) -> nat,
    root: Seq<u8>,
    moves: Seq<Move>,
    workers: nat,
)
    requires
        forall|d: Seq<u8>| #[trigger] weight(d) == 1 + work_left(found_in(filters, listing, d), weight),
        can_run(
            Course { queue: seq![root], in_hand: Seq::empty() },
            |d: Seq<u8>| found_in(filters, listing, d),
            moves,
            workers,
        ),
        workers >= 1,
    ensures
        moves.len() <= 2 * weight(root),
        at_rest(
            course_after(
                Course { queue: seq![root], in_hand: Seq::empty() },
                |d: Seq<u8>| found_in(filters, listing, d),
                moves,
            ),
        ) <==> moves.len() == 2 * weight(root),
{
    let found = |d: Seq<u8>| found_in(filters, listing, d);
    let start = Course { queue: seq![root], in_hand: Seq::<Seq<u8>>::empty() };
    assert forall|d: Seq<u8>| #[trigger] weight(d) == 1 + work_left(found(d), weight) by {
        assert(found(d) == found_in(filters, listing, d));
    }
    law_scan_comes_to_rest(start, found, weight, moves, workers);
    lemma_work_left_first(seq![root], weight);
    assert(seq![root].skip(1) =~= Seq::<Seq<u8>>::empty());
    assert(work_left(seq![root].skip(1), weight) == 0);
}

/// Two scans of the same tree with the same filters tell the same: the
/// batches that they publish are the same, and so is all that the
/// aggregation makes of them.
pub proof fn law_two_scans_tell_the_same(
    filters: &Filters,
    again: &Filters,
    listing: spec_fn(Seq<u8>) -> Option<Seq<DirChildView>>,
    v: QueueView<Seq<u8>>,
    n: nat,
    c: crate::stats::Counts,
    root: Seq<u8>,
    limit: nat,
)
    requires
        filters.re == again.re,
        filters.exclude_re == again.exclude_re,
        filters.age == again.age,
    ensures
        crate::stats::absorbed_all(c, root, limit, filters.age, published(filters, listing, v, n))
            == crate::stats::absorbed_all(c, root, limit, again.age, published(again, listing, v, n)),
{
    law_same_tree_same_batches(filters, again, listing, v, n);
}

} // verus!
