//! What the injector promises of its queue: which cues leave with which tag.

use vstd::prelude::*;

use crate::settings::{LatePolicy, Settings};
use crate::timeline::{Piece, QueuedCue, Timeline};

verus! {

/// The cues that [`Timeline::drained`] writes.
pub open spec fn leaving(timeline: Timeline, policy: LatePolicy) -> Seq<QueuedCue> {
    match timeline.origin {
        None => Seq::empty(),
        Some(origin) => timeline.pending.filter(
            crate::timeline::ready(origin, timeline.position_ms, policy),
        ),
    }
}

/// Where the cues that the stream has not reached start in an ordered queue.
proof fn lemma_waiting_starts_somewhere(
    cues: Seq<QueuedCue>,
    origin: nat,
    position_ms: nat,
) -> (at: int)
    requires
        crate::timeline::ordered(cues),
    ensures
        0 <= at <= cues.len(),
        forall|i: int|
            0 <= i < at ==> !crate::timeline::waiting(origin, position_ms)(#[trigger] cues[i]),
        forall|i: int|
            at <= i < cues.len() ==> crate::timeline::waiting(origin, position_ms)(
                #[trigger] cues[i],
            ),
    decreases cues.len(),
{
    let waits = crate::timeline::waiting(origin, position_ms);
    if cues.len() == 0 {
        0
    } else if !waits(cues.last()) {
        assert forall|i: int| 0 <= i < cues.len() implies !waits(#[trigger] cues[i]) by {
            crate::laws::lemma_later_cue_is_shown_later(
                origin,
                cues[i].running_time,
                cues.last().running_time,
            );
        }
        cues.len() as int
    } else {
        let shorter = cues.drop_last();
        let at = lemma_waiting_starts_somewhere(shorter, origin, position_ms);
        assert forall|i: int| 0 <= i < at implies !waits(#[trigger] cues[i]) by {
            assert(shorter[i] == cues[i]);
        }
        assert forall|i: int| at <= i < cues.len() implies waits(#[trigger] cues[i]) by {
            if i < shorter.len() {
                assert(shorter[i] == cues[i]);
            }
        }
        at
    }
}

/// A queue that is cut where the cues ahead of the stream start.
proof fn lemma_queue_is_cut(
    cues: Seq<QueuedCue>,
    origin: nat,
    position_ms: nat,
    policy: LatePolicy,
    at: int,
)
    requires
        0 <= at <= cues.len(),
        forall|i: int|
            0 <= i < at ==> !crate::timeline::waiting(origin, position_ms)(#[trigger] cues[i]),
        forall|i: int|
            at <= i < cues.len() ==> crate::timeline::waiting(origin, position_ms)(
                #[trigger] cues[i],
            ),
    ensures
        cues.filter(crate::timeline::waiting(origin, position_ms)) == cues.skip(at),
        cues.filter(crate::timeline::ready(origin, position_ms, policy)) == cues.take(at).filter(
            crate::timeline::ready(origin, position_ms, policy),
        ),
        policy is Clamp ==> cues.take(at).filter(
            crate::timeline::ready(origin, position_ms, policy),
        ) == cues.take(at),
{
    let waits = crate::timeline::waiting(origin, position_ms);
    let out = crate::timeline::ready(origin, position_ms, policy);
    let first = cues.take(at);
    let rest = cues.skip(at);
    assert(cues =~= first + rest);
    Seq::filter_distributes_over_add(first, rest, waits);
    Seq::filter_distributes_over_add(first, rest, out);
    first.lemma_all_neg_filter_empty(waits);
    crate::timeline::lemma_filter_all(rest, waits);
    rest.lemma_all_neg_filter_empty(out);
    assert(cues.filter(waits) =~= rest);
    assert(cues.filter(out) =~= first.filter(out));
    if policy is Clamp {
        crate::timeline::lemma_filter_all(first, out);
    }
}

/// Cues leave from the front of the queue: what stays is a suffix of it, and
/// what goes out is the prefix before that, in its order and, where late cues
/// are moved and not discarded, all of it. So no later cue overtakes an earlier
/// one.
pub proof fn law_cues_leave_in_order(before: Timeline, policy: LatePolicy, origin: nat)
    requires
        before.in_order(),
        before.origin == Some(origin),
    ensures
        ({
            let staying = before.drained(policy).pending;
            let going = leaving(before, policy);
            let at = before.pending.len() - staying.len();
            &&& 0 <= at
            &&& staying == before.pending.skip(at)
            &&& going == before.pending.take(at).filter(
                crate::timeline::ready(origin, before.position_ms, policy),
            )
            &&& policy is Clamp ==> going == before.pending.take(at)
            &&& before.drained_pieces(policy) == going.map_values(
                crate::timeline::at_position(before.position_ms),
            )
            &&& crate::timeline::ordered(staying)
            &&& crate::timeline::ordered(going)
        }),
{
    let at = lemma_waiting_starts_somewhere(before.pending, origin, before.position_ms);
    lemma_queue_is_cut(before.pending, origin, before.position_ms, policy, at);
    crate::timeline::lemma_filter_keeps_order(
        before.pending,
        crate::timeline::waiting(origin, before.position_ms),
    );
    crate::timeline::lemma_filter_keeps_order(
        before.pending,
        crate::timeline::ready(origin, before.position_ms, policy),
    );
}

/// A second drain finds nothing: no cue is written or counted twice.
pub proof fn law_second_drain_finds_nothing(before: Timeline, policy: LatePolicy)
    ensures
        before.drained(policy).drained(policy) == before.drained(policy),
        before.drained(policy).drained_pieces(policy) == Seq::<Piece>::empty(),
{
    if let Some(origin) = before.origin {
        let waits = crate::timeline::waiting(origin, before.position_ms);
        let out = crate::timeline::ready(origin, before.position_ms, policy);
        let lost = crate::timeline::late(origin, before.position_ms, policy);
        let staying = before.pending.filter(waits);
        assert forall|i: int| 0 <= i < staying.len() implies waits(#[trigger] staying[i]) by {
            before.pending.lemma_filter_pred(waits, i);
        }
        crate::timeline::lemma_filter_all(staying, waits);
        staying.lemma_all_neg_filter_empty(out);
        staying.lemma_all_neg_filter_empty(lost);
        assert(before.drained(policy).drained_pieces(policy) =~= Seq::<Piece>::empty());
    }
}

/// The stream comes to a tag at `position_ms`.
pub open spec fn positioned(timeline: Timeline, position_ms: nat) -> Timeline {
    Timeline { position_ms, ..timeline }
}

/// Where the queue is after one drain for each of `positions`.
pub open spec fn drains(timeline: Timeline, policy: LatePolicy, positions: Seq<nat>) -> Timeline
    decreases positions.len(),
{
    if positions.len() == 0 {
        timeline
    } else {
        positioned(
            drains(timeline, policy, positions.drop_last()),
            positions.last(),
        ).drained(policy)
    }
}

/// The cues written by the drain for `positions[at]`.
pub open spec fn drain_pieces(
    timeline: Timeline,
    policy: LatePolicy,
    positions: Seq<nat>,
    at: int,
) -> Seq<Piece> {
    positioned(drains(timeline, policy, positions.take(at)), positions[at]).drained_pieces(policy)
}

/// Cues that none of `positions` reaches.
pub open spec fn not_reached(origin: nat, positions: Seq<nat>) -> spec_fn(QueuedCue) -> bool {
    |cue: QueuedCue|
        forall|i: int|
            0 <= i < positions.len() ==> #[trigger] positions[i] < crate::timeline::cue_ms(
                origin,
                cue.running_time,
            )
}

/// Cues that `positions[at]` is the first to reach.
pub open spec fn first_reached(
    origin: nat,
    positions: Seq<nat>,
    at: int,
) -> spec_fn(QueuedCue) -> bool {
    |cue: QueuedCue|
        positions[at] >= crate::timeline::cue_ms(origin, cue.running_time) && forall|i: int|
            0 <= i < at ==> #[trigger] positions[i] < crate::timeline::cue_ms(
                origin,
                cue.running_time,
            )
}

/// Filtering twice is filtering by both.
pub(crate) proof fn lemma_filter_twice(
    cues: Seq<QueuedCue>,
    first: spec_fn(QueuedCue) -> bool,
    second: spec_fn(QueuedCue) -> bool,
    both: spec_fn(QueuedCue) -> bool,
)
    requires
        forall|cue: QueuedCue| #[trigger] both(cue) == (first(cue) && second(cue)),
    ensures
        cues.filter(first).filter(second) == cues.filter(both),
    decreases cues.len(),
{
    reveal(Seq::filter);
    if cues.len() > 0 {
        let shorter = cues.drop_last();
        let last = cues.last();
        lemma_filter_twice(shorter, first, second, both);
        assert(both(last) == (first(last) && second(last)));
        if first(last) {
            shorter.filter(first).lemma_filter_push(last, second);
        }
    }
}

proof fn lemma_drains(before: Timeline, policy: LatePolicy, positions: Seq<nat>, origin: nat)
    requires
        before.origin == Some(origin),
    ensures
        drains(before, policy, positions).origin == Some(origin),
        drains(before, policy, positions).pending == before.pending.filter(
            not_reached(origin, positions),
        ),
    decreases positions.len(),
{
    if positions.len() == 0 {
        crate::timeline::lemma_filter_all(before.pending, not_reached(origin, positions));
    } else {
        let shorter = positions.drop_last();
        let waits = crate::timeline::waiting(origin, positions.last());
        lemma_drains(before, policy, shorter, origin);
        assert forall|cue: QueuedCue| #[trigger]
            not_reached(origin, positions)(cue) == (not_reached(origin, shorter)(cue) && waits(
                cue,
            )) by {
            if not_reached(origin, positions)(cue) {
                assert(positions[positions.len() - 1] < crate::timeline::cue_ms(
                    origin,
                    cue.running_time,
                ));
                assert forall|i: int| 0 <= i < shorter.len() implies #[trigger] shorter[i]
                    < crate::timeline::cue_ms(origin, cue.running_time) by {
                    assert(shorter[i] == positions[i]);
                }
            }
            if not_reached(origin, shorter)(cue) && waits(cue) {
                assert forall|i: int| 0 <= i < positions.len() implies #[trigger] positions[i]
                    < crate::timeline::cue_ms(origin, cue.running_time) by {
                    if i < shorter.len() {
                        assert(shorter[i] == positions[i]);
                    }
                }
            }
        }
        lemma_filter_twice(
            before.pending,
            not_reached(origin, shorter),
            waits,
            not_reached(origin, positions),
        );
    }
}

/// A cue leaves once, with the first tag that reaches it, at the time of that
/// tag. Of a queue that is drained once for each of `positions`, the cues
/// written by one drain are those that its position is the first to reach, in
/// the order of the queue; and those that no position reaches still wait. Late
/// cues are moved here and not discarded.
pub proof fn law_cue_leaves_with_the_first_tag_that_reaches_it(
    before: Timeline,
    positions: Seq<nat>,
    origin: nat,
)
    requires
        before.origin == Some(origin),
    ensures
        forall|at: int|
            0 <= at < positions.len() ==> #[trigger] drain_pieces(
                before,
                LatePolicy::Clamp,
                positions,
                at,
            ) == before.pending.filter(first_reached(origin, positions, at)).map_values(
                crate::timeline::at_position(positions[at]),
            ),
        drains(before, LatePolicy::Clamp, positions).pending == before.pending.filter(
            not_reached(origin, positions),
        ),
        forall|cue: QueuedCue, i: int, j: int|
            0 <= i < positions.len() && 0 <= j < positions.len() && #[trigger] first_reached(
                origin,
                positions,
                i,
            )(cue) && #[trigger] first_reached(origin, positions, j)(cue) ==> i == j,
{
    let policy = LatePolicy::Clamp;
    lemma_drains(before, policy, positions, origin);
    assert forall|at: int| 0 <= at < positions.len() implies #[trigger] drain_pieces(
        before,
        policy,
        positions,
        at,
    ) == before.pending.filter(first_reached(origin, positions, at)).map_values(
        crate::timeline::at_position(positions[at]),
    ) by {
        let earlier = positions.take(at);
        let out = crate::timeline::ready(origin, positions[at], policy);
        lemma_drains(before, policy, earlier, origin);
        assert forall|cue: QueuedCue| #[trigger]
            first_reached(origin, positions, at)(cue) == (not_reached(origin, earlier)(cue) && out(
                cue,
            )) by {
            if not_reached(origin, earlier)(cue) {
                assert forall|i: int| 0 <= i < at implies #[trigger] positions[i]
                    < crate::timeline::cue_ms(origin, cue.running_time) by {
                    assert(earlier[i] == positions[i]);
                }
            }
        }
        lemma_filter_twice(
            before.pending,
            not_reached(origin, earlier),
            out,
            first_reached(origin, positions, at),
        );
    }
    assert forall|cue: QueuedCue, i: int, j: int|
        0 <= i < positions.len() && 0 <= j < positions.len() && #[trigger] first_reached(
            origin,
            positions,
            i,
        )(cue) && #[trigger] first_reached(origin, positions, j)(cue) implies i == j by {
        if i < j {
            assert(positions[i] < crate::timeline::cue_ms(origin, cue.running_time));
        } else if j < i {
            assert(positions[j] < crate::timeline::cue_ms(origin, cue.running_time));
        }
    }
}

/// Copies of `cue`.
pub open spec fn same_as(cue: QueuedCue) -> spec_fn(QueuedCue) -> bool {
    |other: QueuedCue| other == cue
}

/// Two cues of different running times may come in either way round: the queue
/// is the same.
pub proof fn law_order_of_arrival_does_not_matter(
    before: Timeline,
    first: QueuedCue,
    second: QueuedCue,
)
    requires
        first.running_time != second.running_time,
    ensures
        before.queued(first).queued(second) == before.queued(second).queued(first),
{
    if first.running_time < second.running_time {
        lemma_queued_early_first(before, first, second);
        lemma_queued_late_first(before, first, second);
    } else {
        lemma_queued_early_first(before, second, first);
        lemma_queued_late_first(before, second, first);
    }
}

/// A queue with two cues taken in, where `early` is before `late`: what is not
/// after `early`, `early`, what is between them, `late`, and the rest.
spec fn with_both(queue: Seq<QueuedCue>, early: QueuedCue, late: QueuedCue) -> Seq<QueuedCue> {
    queue.filter(crate::timeline::not_after(early.running_time)).push(early) + queue.filter(
        between(early.running_time, late.running_time),
    ).push(late) + queue.filter(crate::timeline::after(late.running_time))
}

/// Cues after `from` and not after `to`.
spec fn between(from: nat, to: nat) -> spec_fn(QueuedCue) -> bool {
    |cue: QueuedCue| from < cue.running_time <= to
}

proof fn lemma_queued_early_first(before: Timeline, early: QueuedCue, late: QueuedCue)
    requires
        early.running_time < late.running_time,
    ensures
        before.queued(early).queued(late).pending == with_both(before.pending, early, late),
{
    let queue = before.pending;
    let to_early = crate::timeline::not_after(early.running_time);
    let from_early = crate::timeline::after(early.running_time);
    let to_late = crate::timeline::not_after(late.running_time);
    let from_late = crate::timeline::after(late.running_time);
    let middle = between(early.running_time, late.running_time);
    let front = queue.filter(to_early);
    let back = queue.filter(from_early);
    assert(front.push(early).filter(to_late) == front.push(early)) by {
        front.lemma_filter_push(early, to_late);
        lemma_filter_twice(queue, to_early, to_late, to_early);
    }
    assert(front.push(early).filter(from_late) == Seq::<QueuedCue>::empty()) by {
        front.lemma_filter_push(early, from_late);
        lemma_filter_none(queue, to_early, from_late);
    }
    lemma_filter_twice(queue, from_early, to_late, middle);
    lemma_filter_twice(queue, from_early, from_late, from_late);
    Seq::filter_distributes_over_add(front.push(early), back, to_late);
    Seq::filter_distributes_over_add(front.push(early), back, from_late);
    assert(before.queued(early).queued(late).pending =~= with_both(queue, early, late));
}

proof fn lemma_queued_late_first(before: Timeline, early: QueuedCue, late: QueuedCue)
    requires
        early.running_time < late.running_time,
    ensures
        before.queued(late).queued(early).pending == with_both(before.pending, early, late),
{
    let queue = before.pending;
    let to_early = crate::timeline::not_after(early.running_time);
    let from_early = crate::timeline::after(early.running_time);
    let to_late = crate::timeline::not_after(late.running_time);
    let from_late = crate::timeline::after(late.running_time);
    let middle = between(early.running_time, late.running_time);
    let front = queue.filter(to_late);
    let back = queue.filter(from_late);
    assert(front.push(late).filter(to_early) == queue.filter(to_early)) by {
        front.lemma_filter_push(late, to_early);
        lemma_filter_twice(queue, to_late, to_early, to_early);
    }
    assert(front.push(late).filter(from_early) == queue.filter(middle).push(late)) by {
        front.lemma_filter_push(late, from_early);
        lemma_filter_twice(queue, to_late, from_early, middle);
    }
    lemma_filter_none(queue, from_late, to_early);
    lemma_filter_twice(queue, from_late, from_early, from_late);
    Seq::filter_distributes_over_add(front.push(late), back, to_early);
    Seq::filter_distributes_over_add(front.push(late), back, from_early);
    assert(before.queued(late).queued(early).pending =~= with_both(queue, early, late));
}

/// What passes one filter passes none that excludes it.
pub(crate) proof fn lemma_filter_none(
    cues: Seq<QueuedCue>,
    first: spec_fn(QueuedCue) -> bool,
    second: spec_fn(QueuedCue) -> bool,
)
    requires
        forall|cue: QueuedCue| #[trigger] first(cue) ==> !second(cue),
    ensures
        cues.filter(first).filter(second) == Seq::<QueuedCue>::empty(),
{
    assert forall|i: int| 0 <= i < cues.filter(first).len() implies !second(
        #[trigger] cues.filter(first)[i],
    ) by {
        cues.lemma_filter_pred(first, i);
    }
    cues.filter(first).lemma_all_neg_filter_empty(second);
}

/// How often `cue` stands in `cues`.
pub open spec fn copies(cues: Seq<QueuedCue>, cue: QueuedCue) -> nat {
    cues.filter(same_as(cue)).len()
}

/// What can happen to the queue.
pub enum Step {
    /// A cue comes in.
    Queued(QueuedCue),
    /// A tag at `position_ms` comes by.
    Tag { position_ms: nat },
}

/// Where the queue is after `steps`.
pub open spec fn stepped(before: Timeline, policy: LatePolicy, steps: Seq<Step>) -> Timeline
    decreases steps.len(),
{
    if steps.len() == 0 {
        before
    } else {
        let last = stepped(before, policy, steps.drop_last());
        match steps.last() {
            Step::Queued(cue) => last.queued(cue),
            Step::Tag { position_ms } => positioned(last, position_ms).drained(policy),
        }
    }
}

/// How many of the copies of `cue`, with `start` to begin with, wait after
/// `steps` for a first tag that reaches them.
pub open spec fn copies_waiting(
    origin: nat,
    cue: QueuedCue,
    start: nat,
    steps: Seq<Step>,
) -> nat
    decreases steps.len(),
{
    if steps.len() == 0 {
        start
    } else {
        let last = copies_waiting(origin, cue, start, steps.drop_last());
        match steps.last() {
            Step::Queued(added) => if added == cue {
                last + 1
            } else {
                last
            },
            Step::Tag { position_ms } => if position_ms >= crate::timeline::cue_ms(
                origin,
                cue.running_time,
            ) {
                0
            } else {
                last
            },
        }
    }
}

/// Of the copies of a cue, a filter takes all or none.
pub(crate) proof fn lemma_filter_takes_all_copies_or_none(
    cues: Seq<QueuedCue>,
    pred: spec_fn(QueuedCue) -> bool,
    cue: QueuedCue,
)
    ensures
        copies(cues.filter(pred), cue) == if pred(cue) {
            copies(cues, cue)
        } else {
            0
        },
    decreases cues.len(),
{
    reveal(Seq::filter);
    let same = same_as(cue);
    if cues.len() > 0 {
        let shorter = cues.drop_last();
        lemma_filter_takes_all_copies_or_none(shorter, pred, cue);
        if pred(cues.last()) {
            shorter.filter(pred).lemma_filter_push(cues.last(), same);
        }
    }
}

/// A cue taken in is one copy more, of itself alone.
proof fn lemma_copies_queued(before: Timeline, added: QueuedCue, cue: QueuedCue)
    ensures
        copies(before.queued(added).pending, cue) == copies(before.pending, cue) + if added
            == cue {
            1nat
        } else {
            0nat
        },
{
    let same = same_as(cue);
    let first = crate::timeline::not_after(added.running_time);
    let rest = crate::timeline::after(added.running_time);
    let front = before.pending.filter(first);
    let back = before.pending.filter(rest);
    Seq::filter_distributes_over_add(front.push(added), back, same);
    front.lemma_filter_push(added, same);
    lemma_filter_takes_all_copies_or_none(before.pending, first, cue);
    lemma_filter_takes_all_copies_or_none(before.pending, rest, cue);
}

/// However cues and tags interleave, every time that a cue comes in it leaves
/// once: with the first tag behind it that reaches it, and with none before or
/// after. Late cues are moved here and not discarded.
pub proof fn law_cue_leaves_once(
    before: Timeline,
    steps: Seq<Step>,
    origin: nat,
    cue: QueuedCue,
    position_ms: nat,
)
    requires
        before.origin == Some(origin),
    ensures
        ({
            let start = copies(before.pending, cue);
            let after = stepped(before, LatePolicy::Clamp, steps);
            let waiting = copies_waiting(origin, cue, start, steps);
            &&& after.origin == Some(origin)
            &&& copies(after.pending, cue) == waiting
            &&& copies(leaving(positioned(after, position_ms), LatePolicy::Clamp), cue)
                == if position_ms >= crate::timeline::cue_ms(origin, cue.running_time) {
                waiting
            } else {
                0
            }
            &&& positioned(after, position_ms).drained_pieces(LatePolicy::Clamp) == leaving(
                positioned(after, position_ms),
                LatePolicy::Clamp,
            ).map_values(crate::timeline::at_position(position_ms))
        }),
    decreases steps.len(),
{
    let policy = LatePolicy::Clamp;
    let after = stepped(before, policy, steps);
    if steps.len() > 0 {
        let shorter = steps.drop_last();
        let last = stepped(before, policy, shorter);
        law_cue_leaves_once(before, shorter, origin, cue, position_ms);
        match steps.last() {
            Step::Queued(added) => {
                lemma_copies_queued(last, added, cue);
            },
            Step::Tag { position_ms: passed_ms } => {
                lemma_filter_takes_all_copies_or_none(
                    last.pending,
                    crate::timeline::waiting(origin, passed_ms),
                    cue,
                );
            },
        }
    }
    lemma_filter_takes_all_copies_or_none(
        after.pending,
        crate::timeline::ready(origin, position_ms, policy),
        cue,
    );
}

/// The timestamps of the whole tags at the start of `bytes`.
pub open spec fn tag_times(bytes: Seq<u8>) -> Seq<nat>
    decreases bytes.len(),
{
    if crate::flv::starts_with_tag(bytes) {
        let header = crate::flv::tag_header(bytes);
        seq![header.timestamp_ms as nat] + tag_times(bytes.skip(header.tag_len() as int))
    } else {
        Seq::empty()
    }
}

/// All cues written by one drain for each of `positions`.
pub open spec fn all_drain_pieces(
    timeline: Timeline,
    policy: LatePolicy,
    positions: Seq<nat>,
) -> Seq<Piece>
    decreases positions.len(),
{
    if positions.len() == 0 {
        Seq::empty()
    } else {
        all_drain_pieces(timeline, policy, positions.drop_last()) + drain_pieces(
            timeline,
            policy,
            positions,
            positions.len() - 1,
        )
    }
}

/// Pieces that are cues.
pub open spec fn is_cue() -> spec_fn(Piece) -> bool {
    |piece: Piece| piece is Cue
}

/// The cues among `pieces`.
pub open spec fn cue_pieces(pieces: Seq<Piece>) -> Seq<Piece> {
    pieces.filter(is_cue())
}

proof fn lemma_drains_from_the_front(before: Timeline, policy: LatePolicy, positions: Seq<nat>)
    requires
        positions.len() > 0,
    ensures
        ({
            let first = positioned(before, positions.first());
            let rest = positions.drop_first();
            &&& drains(before, policy, positions) == drains(first.drained(policy), policy, rest)
            &&& all_drain_pieces(before, policy, positions) == first.drained_pieces(policy)
                + all_drain_pieces(first.drained(policy), policy, rest)
        }),
    decreases positions.len(),
{
    let first = positioned(before, positions.first());
    let rest = positions.drop_first();
    let shorter = positions.drop_last();
    assert(positions.take(positions.len() - 1) =~= shorter);
    if shorter.len() > 0 {
        lemma_drains_from_the_front(before, policy, shorter);
        assert(shorter.drop_first() =~= rest.drop_last());
        assert(rest.take(rest.len() - 1) =~= rest.drop_last());
        assert(rest.last() == positions.last());
        assert(all_drain_pieces(before, policy, positions) =~= first.drained_pieces(policy)
            + all_drain_pieces(first.drained(policy), policy, rest));
    } else {
        assert(rest =~= Seq::<nat>::empty());
        assert(drains(before, policy, shorter) == before);
        assert(all_drain_pieces(before, policy, shorter) =~= Seq::<Piece>::empty());
        assert(all_drain_pieces(before, policy, positions) =~= first.drained_pieces(policy)
            + all_drain_pieces(first.drained(policy), policy, rest));
    }
}

proof fn lemma_cue_pieces_of_a_tag(before: Timeline, settings: Settings)
    ensures
        cue_pieces(before.advanced_pieces(settings)) == before.arrived(settings).drained_pieces(
            settings.late_policy,
        ),
{
    let priming = before.priming_pieces(settings);
    let cues = before.arrived(settings).drained_pieces(settings.late_policy);
    let tag = seq![
        Piece::Passed(
            before.partial.take(crate::flv::tag_header(before.partial).tag_len() as int),
        ),
    ];
    Seq::filter_distributes_over_add(priming + cues, tag, is_cue());
    Seq::filter_distributes_over_add(priming, cues, is_cue());
    priming.lemma_all_neg_filter_empty(is_cue());
    tag.lemma_all_neg_filter_empty(is_cue());
    lemma_all_pieces_kept(cues, is_cue());
    assert(cue_pieces(before.advanced_pieces(settings)) =~= cues);
}

proof fn lemma_all_pieces_kept(pieces: Seq<Piece>, pred: spec_fn(Piece) -> bool)
    requires
        forall|i: int| 0 <= i < pieces.len() ==> pred(#[trigger] pieces[i]),
    ensures
        pieces.filter(pred) == pieces,
    decreases pieces.len(),
{
    reveal(Seq::filter);
    if pieces.len() > 0 {
        lemma_all_pieces_kept(pieces.drop_last(), pred);
        assert(pieces =~= pieces.drop_last().push(pieces.last()));
    }
}

/// Whether two timelines agree as far as their queues go.
pub open spec fn same_queue(first: Timeline, second: Timeline) -> bool {
    &&& first.pending == second.pending
    &&& first.origin == second.origin
    &&& first.written == second.written
    &&& first.dropped == second.dropped
}

proof fn lemma_drains_see_the_queue_alone(
    first: Timeline,
    second: Timeline,
    policy: LatePolicy,
    positions: Seq<nat>,
)
    requires
        same_queue(first, second),
    ensures
        same_queue(drains(first, policy, positions), drains(second, policy, positions)),
        all_drain_pieces(first, policy, positions) == all_drain_pieces(second, policy, positions),
    decreases positions.len(),
{
    if positions.len() > 0 {
        let shorter = positions.drop_last();
        assert(positions.take(positions.len() - 1) =~= shorter);
        lemma_drains_see_the_queue_alone(first, second, policy, shorter);
    }
}

/// Each tag that passes drains the queue once, at its own timestamp, and nothing
/// else does: the cues that go out with the tags held are those of one drain
/// for each of their timestamps.
pub proof fn law_each_tag_drains_once(before: Timeline, settings: Settings)
    ensures
        same_queue(
            before.spliced(settings),
            drains(before, settings.late_policy, tag_times(before.partial)),
        ),
        cue_pieces(before.spliced_pieces(settings)) == all_drain_pieces(
            before,
            settings.late_policy,
            tag_times(before.partial),
        ),
    decreases before.partial.len(),
{
    let policy = settings.late_policy;
    let times = tag_times(before.partial);
    if crate::flv::starts_with_tag(before.partial) {
        let next = before.advanced(settings);
        let drained = positioned(before, times.first()).drained(policy);
        law_each_tag_drains_once(next, settings);
        assert(times.drop_first() =~= tag_times(next.partial));
        lemma_drains_from_the_front(before, policy, times);
        assert(same_queue(next, drained));
        lemma_drains_see_the_queue_alone(next, drained, policy, times.drop_first());
        lemma_cue_pieces_of_a_tag(before, settings);
        Seq::filter_distributes_over_add(
            before.advanced_pieces(settings),
            next.spliced_pieces(settings),
            is_cue(),
        );
    } else {
        Seq::<Piece>::empty().lemma_all_neg_filter_empty(is_cue());
    }
}

} // verus!
