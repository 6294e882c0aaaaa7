//! What the model means in bytes, nanoseconds and numbers.
//!
//! A tag at `t` milliseconds of a stream that counts from `origin` stands for the
//! nanoseconds from `origin + t * 1_000_000` up to, and without, those of the
//! next millisecond. A cue before that span is late for the tag, one within it is
//! on time, and one behind it waits. The last millisecond that a tag can carry
//! stands for everything from there on.

use vstd::prelude::*;

use crate::amf::MessageName;
use crate::settings::{LatePolicy, Settings};
use crate::subinject::{FlvSubInject, PadEvent, SegmentChange};
use crate::timeline::{Piece, QueuedCue, Timeline};

verus! {

/// A cue `k` whole milliseconds and a part of one behind the origin belongs at
/// exactly `k` milliseconds. One from before the origin belongs at zero, and one
/// beyond the largest timestamp at that.
pub proof fn law_cue_belongs_at_its_millisecond(origin: nat, k: nat, r: nat)
    requires
        r < 1_000_000,
    ensures
        k <= 0xffff_ffff ==> crate::timeline::cue_ms(origin, origin + k * 1_000_000 + r) == k,
        k > 0xffff_ffff ==> crate::timeline::cue_ms(origin, origin + k * 1_000_000 + r)
            == 0xffff_ffff,
        forall|early: nat| early <= origin ==> #[trigger] crate::timeline::cue_ms(origin, early)
            == 0,
{
}

/// Whole milliseconds more of running time are as many milliseconds more on the
/// muxer's clock, as far as a tag can carry them; and where both clocks start
/// does not matter.
pub proof fn law_clocks_run_alike(origin: nat, running_time: nat, k: nat, shift: nat)
    requires
        origin <= running_time,
        running_time - origin + k * 1_000_000 < 0x1_0000_0000 * 1_000_000,
    ensures
        crate::timeline::cue_ms(origin, running_time + k * 1_000_000) == crate::timeline::cue_ms(
            origin,
            running_time,
        ) + k,
        crate::timeline::cue_ms(origin + shift, running_time + shift) == crate::timeline::cue_ms(
            origin,
            running_time,
        ),
{
}

/// The running time of a buffer is what its segment makes of the timestamp, also
/// where that is before the timestamp; the timestamp itself then does not
/// matter. Where no segment converts it, it is the timestamp.
pub proof fn law_segment_decides_the_running_time(pts: u64, other: u64, time: u64)
    ensures
        crate::subinject::running_time_of(pts, Some(time)) == time,
        crate::subinject::running_time_of(pts, Some(time)) == crate::subinject::running_time_of(
            other,
            Some(time),
        ),
        crate::subinject::running_time_of(pts, None) == pts,
        crate::subinject::stream_time(Some(pts), Some(time)) == Some(time as nat),
        crate::subinject::stream_time(Some(pts), None) == Some(pts as nat),
        crate::subinject::stream_time(None, Some(time)) == None::<nat>,
        crate::subinject::stream_time(None, None) == None::<nat>,
{
}

/// A stream starts from nothing: no cue queued, no byte held, no position, no
/// clock. A flush goes back there and keeps the counts and the declaration.
pub proof fn law_stream_starts_from_nothing(before: Timeline)
    ensures
        ({
            let start = Timeline::initial();
            &&& start.pending == Seq::<QueuedCue>::empty() && start.partial == Seq::<u8>::empty()
            &&& !start.header_seen && start.position_ms == 0 && start.origin == None::<nat>
            &&& start.written == 0 && start.dropped == 0 && !start.primed
        }),
        ({
            let start = before.flushed();
            &&& start.pending == Seq::<QueuedCue>::empty() && start.partial == Seq::<u8>::empty()
            &&& !start.header_seen && start.position_ms == 0 && start.origin == None::<nat>
            &&& start.written == before.written && start.dropped == before.dropped
            &&& start.primed == before.primed
        }),
        before.accepted() == before.written + before.dropped + before.pending.len(),
{
}

/// A cue that comes in is put in one place of the queue, behind every cue that is
/// not later and before every cue that is, and nothing else changes.
pub proof fn law_cue_is_put_in_its_place(before: Timeline, cue: QueuedCue)
    requires
        forall|i: int, j: int|
            0 <= i <= j < before.pending.len() ==> before.pending[i].running_time
                <= before.pending[j].running_time,
    ensures
        exists|at: int|
            {
                &&& 0 <= at <= before.pending.len()
                &&& forall|i: int|
                    0 <= i < at ==> (#[trigger] before.pending[i]).running_time
                        <= cue.running_time
                &&& forall|i: int|
                    at <= i < before.pending.len() ==> (
                    #[trigger] before.pending[i]).running_time > cue.running_time
                &&& before.queued(cue) == (Timeline {
                    pending: #[trigger] before.pending.insert(at, cue),
                    ..before
                })
            },
{
    let at = crate::timeline::split_point(before.pending, cue.running_time);
    crate::timeline::lemma_split_point(before.pending, cue.running_time);
    crate::timeline::lemma_queue_splits(before.pending, at, cue.running_time);
    assert(before.queued(cue).pending =~= before.pending.insert(at, cue));
}

/// Until the thirteen bytes of a file header could be there, everything is held
/// and nothing goes out. The first timestamped bytes fix the origin.
pub proof fn law_start_is_held_until_it_can_be_told(
    before: Timeline,
    settings: Settings,
    data: Seq<u8>,
    running_time: Option<nat>,
)
    requires
        !before.header_seen,
        before.partial.len() + data.len() < 13,
    ensures
        before.received_pieces(settings, data, running_time) == Seq::<Piece>::empty(),
        before.received(settings, data, running_time) == (Timeline {
            partial: before.partial + data,
            origin: if before.origin is Some {
                before.origin
            } else {
                running_time
            },
            ..before
        }),
{
}

/// Thirteen bytes that start with `FLV` go out by themselves, whatever the other
/// ten are; the bytes behind them are received as if they came next.
pub proof fn law_file_header_goes_out_by_itself(
    before: Timeline,
    settings: Settings,
    data: Seq<u8>,
    running_time: Option<nat>,
)
    requires
        !before.header_seen,
        before.partial.len() + data.len() >= 13,
        (before.partial + data)[0] == 0x46,
        (before.partial + data)[1] == 0x4c,
        (before.partial + data)[2] == 0x56,
    ensures
        ({
            let held = before.partial + data;
            let next = Timeline {
                partial: Seq::empty(),
                header_seen: true,
                origin: if before.origin is Some {
                    before.origin
                } else {
                    running_time
                },
                ..before
            };
            &&& before.received_pieces(settings, data, running_time) == seq![
                Piece::Passed(held.take(13)),
            ] + next.received_pieces(settings, held.skip(13), None)
            &&& before.received(settings, data, running_time) == next.received(
                settings,
                held.skip(13),
                None,
            )
        }),
{
    let held = before.partial + data;
    let opened = before.fed(data, running_time).opened();
    let next = Timeline { partial: Seq::empty(), ..opened };
    assert(next.fed(held.skip(13), None).partial =~= held.skip(13));
    assert(next.fed(held.skip(13), None) == opened);
    assert(Seq::<Piece>::empty() + opened.spliced_pieces(settings) =~= opened.spliced_pieces(
        settings,
    ));
}

/// Where the first three bytes are not `FLV`, the stream starts with a tag.
pub proof fn law_stream_may_start_with_a_tag(
    before: Timeline,
    settings: Settings,
    data: Seq<u8>,
    running_time: Option<nat>,
)
    requires
        !before.header_seen,
        before.partial.len() + data.len() >= 13,
        (before.partial + data)[0] != 0x46 || (before.partial + data)[1] != 0x4c || (before.partial
            + data)[2] != 0x56,
    ensures
        ({
            let started = Timeline { header_seen: true, ..before };
            &&& before.received_pieces(settings, data, running_time) == started.received_pieces(
                settings,
                data,
                running_time,
            )
            &&& before.received(settings, data, running_time) == started.received(
                settings,
                data,
                running_time,
            )
        }),
{
    let fed = before.fed(data, running_time);
    assert(fed.opened_pieces() =~= Seq::<Piece>::empty());
}

/// A tag is held until as many bytes are there as its own size field asks for,
/// and nothing goes out until then.
pub proof fn law_tag_is_held_until_it_is_whole(
    before: Timeline,
    settings: Settings,
    data: Seq<u8>,
    running_time: Option<nat>,
)
    requires
        before.header_seen,
        ({
            let held = before.partial + data;
            held.len() < 11 || held.len() < 15 + held[1] * 0x1_0000 + held[2] * 0x100 + held[3]
        }),
    ensures
        before.received_pieces(settings, data, running_time) == Seq::<Piece>::empty(),
        before.received(settings, data, running_time) == (Timeline {
            partial: before.partial + data,
            origin: if before.origin is Some {
                before.origin
            } else {
                running_time
            },
            ..before
        }),
{
    let fed = before.fed(data, running_time);
    crate::flv::law_tag_is_as_long_as_it_says(fed.partial);
    assert(fed.opened_pieces() + fed.spliced_pieces(settings) =~= Seq::<Piece>::empty());
}

/// A queue that is cut by time in nanoseconds is cut as it is by milliseconds.
proof fn lemma_spans(queue: Seq<QueuedCue>, origin: nat, time_ms: nat, policy: LatePolicy)
    requires
        time_ms <= 0xffff_ffff,
    ensures
        queue.filter(crate::timeline::waiting(origin, time_ms)) == queue.filter(
            |cue: QueuedCue|
                time_ms < 0xffff_ffff && cue.running_time >= origin + (time_ms + 1) * 1_000_000,
        ),
        queue.filter(crate::timeline::late(origin, time_ms, policy)) == queue.filter(
            |cue: QueuedCue|
                policy is Drop && time_ms > 0 && cue.running_time < origin + time_ms * 1_000_000,
        ),
        queue.filter(crate::timeline::ready(origin, time_ms, policy)) == queue.filter(
            |cue: QueuedCue|
                (time_ms == 0xffff_ffff || cue.running_time < origin + (time_ms + 1) * 1_000_000)
                    && (policy is Clamp || time_ms == 0 || cue.running_time >= origin + time_ms
                    * 1_000_000),
        ),
        queue.filter(crate::timeline::kept(origin, time_ms, policy)) == queue.filter(
            |cue: QueuedCue|
                policy is Clamp || time_ms == 0 || cue.running_time >= origin + time_ms * 1_000_000,
        ),
{
    let waits = |cue: QueuedCue|
        time_ms < 0xffff_ffff && cue.running_time >= origin + (time_ms + 1) * 1_000_000;
    let lost = |cue: QueuedCue|
        policy is Drop && time_ms > 0 && cue.running_time < origin + time_ms * 1_000_000;
    let out = |cue: QueuedCue|
        (time_ms == 0xffff_ffff || cue.running_time < origin + (time_ms + 1) * 1_000_000) && (
        policy is Clamp || time_ms == 0 || cue.running_time >= origin + time_ms * 1_000_000);
    let stays = |cue: QueuedCue|
        policy is Clamp || time_ms == 0 || cue.running_time >= origin + time_ms * 1_000_000;
    assert(crate::timeline::waiting(origin, time_ms) =~= waits);
    assert(crate::timeline::late(origin, time_ms, policy) =~= lost);
    assert(crate::timeline::ready(origin, time_ms, policy) =~= out);
    assert(crate::timeline::kept(origin, time_ms, policy) =~= stays);
}

/// What a whole tag brings about, while the clock is known. Out go, in this
/// order: the declaration where it is still owed; the cues that the tag's time
/// reaches, each with the tag's time and its own text, whatever that is; and the
/// tag. A cue before the tag's own millisecond is given up where the policy says
/// so, and no other ever is. What is behind that millisecond waits. The bytes
/// behind the tag are received as if they came next.
pub proof fn law_tag_takes_its_cues_along(
    before: Timeline,
    settings: Settings,
    data: Seq<u8>,
    running_time: Option<nat>,
    origin: nat,
)
    requires
        before.header_seen,
        before.origin == Some(origin) || (before.origin is None && running_time == Some(origin)),
        before.partial.len() + data.len() >= 11,
        ({
            let held = before.partial + data;
            held.len() >= 15 + held[1] * 0x1_0000 + held[2] * 0x100 + held[3]
        }),
    ensures
        ({
            let held = before.partial + data;
            let len = 15 + held[1] * 0x1_0000 + held[2] * 0x100 + held[3];
            let time_ms = (held[7] * 0x100_0000 + held[4] * 0x1_0000 + held[5] * 0x100
                + held[6]) as nat;
            let policy = settings.late_policy;
            let written = before.pending.filter(
                |cue: QueuedCue|
                    (time_ms == 0xffff_ffff || cue.running_time < origin + (time_ms + 1)
                        * 1_000_000) && (policy is Clamp || time_ms == 0 || cue.running_time
                        >= origin + time_ms * 1_000_000),
            );
            let given_up = before.pending.filter(
                |cue: QueuedCue|
                    policy is Drop && time_ms > 0 && cue.running_time < origin + time_ms
                        * 1_000_000,
            );
            let next = Timeline {
                pending: before.pending.filter(
                    |cue: QueuedCue|
                        time_ms < 0xffff_ffff && cue.running_time >= origin + (time_ms + 1)
                            * 1_000_000,
                ),
                partial: Seq::empty(),
                header_seen: true,
                position_ms: time_ms,
                origin: Some(origin),
                written: before.written + written.len(),
                dropped: before.dropped + given_up.len(),
                primed: before.primed || settings.prime,
            };
            let declaration = if settings.prime && !before.primed {
                seq![Piece::Priming { timestamp_ms: time_ms }]
            } else {
                Seq::empty()
            };
            &&& before.received_pieces(settings, data, running_time) == declaration
                + written.map_values(
                |cue: QueuedCue| Piece::Cue { timestamp_ms: time_ms, text: cue.text },
            ) + seq![Piece::Passed(held.take(len))] + next.received_pieces(
                settings,
                held.skip(len),
                None,
            )
            &&& before.received(settings, data, running_time) == next.received(
                settings,
                held.skip(len),
                None,
            )
        }),
{
    let fed = before.fed(data, running_time);
    let held = before.partial + data;
    let policy = settings.late_policy;
    crate::flv::law_tag_is_as_long_as_it_says(held);
    let header = crate::flv::tag_header(held);
    let len = header.tag_len() as int;
    let time_ms = header.timestamp_ms as nat;
    lemma_spans(before.pending, origin, time_ms, policy);
    let written = before.pending.filter(crate::timeline::ready(origin, time_ms, policy));
    let stamp = |cue: QueuedCue| Piece::Cue { timestamp_ms: time_ms, text: cue.text };
    assert(crate::timeline::at_position(time_ms) =~= stamp);
    assert(fed.arrived(settings).drained_pieces(policy) == written.map_values(stamp));
    let advanced = fed.advanced(settings);
    let next = Timeline { partial: Seq::empty(), ..advanced };
    assert(next.fed(held.skip(len), None).partial =~= held.skip(len));
    assert(next.fed(held.skip(len), None) == advanced);
    lemma_started_receives(fed, settings);
    lemma_started_receives(advanced, settings);
}

/// Once the start of the stream is behind, what is received is spliced.
proof fn lemma_started_receives(fed: Timeline, settings: Settings)
    requires
        fed.header_seen,
    ensures
        fed.opened() == fed,
        fed.opened_pieces() + fed.spliced_pieces(settings) == fed.spliced_pieces(settings),
{
    assert(fed.opened_pieces() + fed.spliced_pieces(settings) =~= fed.spliced_pieces(settings));
}

/// While the clock is not known, a whole tag goes out behind the declaration
/// where that is still owed, and every cue waits.
pub proof fn law_tag_without_a_clock_takes_no_cue(
    before: Timeline,
    settings: Settings,
    data: Seq<u8>,
)
    requires
        before.header_seen,
        before.origin is None,
        before.partial.len() + data.len() >= 11,
        ({
            let held = before.partial + data;
            held.len() >= 15 + held[1] * 0x1_0000 + held[2] * 0x100 + held[3]
        }),
    ensures
        ({
            let held = before.partial + data;
            let len = 15 + held[1] * 0x1_0000 + held[2] * 0x100 + held[3];
            let time_ms = (held[7] * 0x100_0000 + held[4] * 0x1_0000 + held[5] * 0x100
                + held[6]) as nat;
            let next = Timeline {
                partial: Seq::empty(),
                position_ms: time_ms,
                primed: before.primed || settings.prime,
                ..before
            };
            let declaration = if settings.prime && !before.primed {
                seq![Piece::Priming { timestamp_ms: time_ms }]
            } else {
                Seq::empty()
            };
            &&& before.received_pieces(settings, data, None) == declaration + seq![
                Piece::Passed(held.take(len)),
            ] + next.received_pieces(settings, held.skip(len), None)
            &&& before.received(settings, data, None) == next.received(
                settings,
                held.skip(len),
                None,
            )
        }),
{
    let fed = before.fed(data, None);
    let held = before.partial + data;
    crate::flv::law_tag_is_as_long_as_it_says(held);
    let len = crate::flv::tag_header(held).tag_len() as int;
    let advanced = fed.advanced(settings);
    let next = Timeline { partial: Seq::empty(), ..advanced };
    assert(next.fed(held.skip(len), None).partial =~= held.skip(len));
    assert(next.fed(held.skip(len), None) == advanced);
    lemma_started_receives(fed, settings);
    lemma_started_receives(advanced, settings);
    assert(fed.advanced_pieces(settings) =~= fed.priming_pieces(settings) + seq![
        Piece::Passed(held.take(len)),
    ]);
}

/// What the end of a stream brings about. Once its start is behind and its clock
/// known, every cue goes out with its text, in the order of the queue, but for
/// those before the last tag's millisecond where the policy gives them up. One
/// that the stream has reached goes out at the stream position; one ahead of it
/// at the millisecond that it belongs to. Otherwise nothing goes out and nothing
/// changes.
pub proof fn law_end_writes_what_is_left(before: Timeline, policy: LatePolicy)
    requires
        before.position_ms <= 0xffff_ffff,
    ensures
        before.origin is None || !before.header_seen ==> before.finished(policy) == before
            && before.finished_pieces(policy) == Seq::<Piece>::empty(),
        before.header_seen && before.origin is Some ==> {
            let origin = before.origin->0;
            let position_ms = before.position_ms;
            let written = before.pending.filter(
                |cue: QueuedCue|
                    policy is Clamp || position_ms == 0 || cue.running_time >= origin + position_ms
                        * 1_000_000,
            );
            let given_up = before.pending.filter(
                |cue: QueuedCue|
                    policy is Drop && position_ms > 0 && cue.running_time < origin + position_ms
                        * 1_000_000,
            );
            let pieces = before.finished_pieces(policy);
            &&& before.finished(policy) == (Timeline {
                pending: Seq::empty(),
                written: before.written + written.len(),
                dropped: before.dropped + given_up.len(),
                ..before
            })
            &&& pieces.len() == written.len()
            &&& forall|i: int|
                #![trigger pieces[i]]
                0 <= i < pieces.len() ==> pieces[i] is Cue && pieces[i]->text == written[i].text
                    && {
                    let time_ms = pieces[i]->Cue_timestamp_ms;
                    if written[i].running_time < origin + (position_ms + 1) * 1_000_000 {
                        time_ms == position_ms
                    } else {
                        time_ms <= 0xffff_ffff && origin + time_ms * 1_000_000
                            <= written[i].running_time && (time_ms == 0xffff_ffff
                            || written[i].running_time < origin + (time_ms + 1) * 1_000_000)
                    }
                }
        },
{
    if before.header_seen && before.origin is Some {
        lemma_spans(before.pending, before.origin->0, before.position_ms, policy);
    }
}

/// A cue goes with the first tag of its millisecond or a later one, whatever came
/// before. Of one that waits and belongs at `k` milliseconds: a tag below `k`
/// leaves it waiting; a tag at `k` writes it there under either policy, whatever
/// its text; a tag above `k` writes it at the tag's time where late cues are
/// moved, and gives it up only where they are discarded.
pub proof fn law_cue_goes_with_the_first_tag_of_its_millisecond(
    before: Timeline,
    origin: nat,
    k: nat,
    r: nat,
    text: Seq<char>,
    time_ms: nat,
    policy: LatePolicy,
)
    requires
        before.origin == Some(origin),
        k <= 0xffff_ffff,
        r < 1_000_000,
        before.pending.contains(
            (QueuedCue { running_time: origin + k * 1_000_000 + r, text }),
        ),
    ensures
        ({
            let cue = QueuedCue { running_time: origin + k * 1_000_000 + r, text };
            let at = crate::drains::positioned(before, time_ms);
            &&& time_ms < k <==> at.drained(policy).pending.contains(cue)
            &&& time_ms == k || (time_ms > k && policy is Clamp) ==> at.drained_pieces(
                policy,
            ).contains(Piece::Cue { timestamp_ms: time_ms, text })
            &&& time_ms == k || policy is Clamp || time_ms < k ==> crate::drains::copies(
                crate::drains::leaving(at, policy),
                cue,
            ) + crate::drains::copies(at.drained(policy).pending, cue) == crate::drains::copies(
                before.pending,
                cue,
            )
        }),
{
    let cue = QueuedCue { running_time: origin + k * 1_000_000 + r, text };
    let at = crate::drains::positioned(before, time_ms);
    let waits = crate::timeline::waiting(origin, time_ms);
    let out = crate::timeline::ready(origin, time_ms, policy);
    let i = before.pending.index_of(cue);
    law_cue_belongs_at_its_millisecond(origin, k, r);
    crate::drains::lemma_filter_takes_all_copies_or_none(before.pending, waits, cue);
    crate::drains::lemma_filter_takes_all_copies_or_none(before.pending, out, cue);
    if waits(cue) {
        before.pending.lemma_filter_contains(waits, i);
    } else if at.drained(policy).pending.contains(cue) {
        let j = at.drained(policy).pending.index_of(cue);
        before.pending.lemma_filter_pred(waits, j);
    }
    if out(cue) {
        before.pending.lemma_filter_contains(out, i);
        let going = before.pending.filter(out);
        let j = going.index_of(cue);
        assert(at.drained_pieces(policy)[j] == Piece::Cue { timestamp_ms: time_ms, text });
    }
}

/// Among the tags of a stream, a cue that belongs at `k` milliseconds leaves with
/// the first whose time is at least `k`. Where late cues are moved it is written
/// at that tag's time. Where they are discarded it is written if that tag is at
/// `k` exactly, and given up only if it is not.
pub proof fn law_cue_leaves_at_its_millisecond(
    before: Timeline,
    policy: LatePolicy,
    times: Seq<nat>,
    origin: nat,
    k: nat,
    r: nat,
    text: Seq<char>,
    at: int,
)
    requires
        before.origin == Some(origin),
        k <= 0xffff_ffff,
        r < 1_000_000,
        before.pending.contains(
            (QueuedCue { running_time: origin + k * 1_000_000 + r, text }),
        ),
        0 <= at < times.len(),
        times[at] >= k,
        forall|i: int| 0 <= i < at ==> #[trigger] times[i] < k,
    ensures
        ({
            let cue = QueuedCue { running_time: origin + k * 1_000_000 + r, text };
            &&& forall|i: int|
                0 <= i <= at ==> (#[trigger] crate::drains::drains(
                    before,
                    policy,
                    times.take(i),
                )).pending.contains(cue)
            &&& !crate::drains::drains(before, policy, times.take(at + 1)).pending.contains(cue)
            &&& policy is Clamp || times[at] == k ==> crate::drains::drain_pieces(
                before,
                policy,
                times,
                at,
            ).contains(Piece::Cue { timestamp_ms: times[at], text })
        }),
{
    let cue = QueuedCue { running_time: origin + k * 1_000_000 + r, text };
    assert forall|i: int| 0 <= i <= at implies (#[trigger] crate::drains::drains(
        before,
        policy,
        times.take(i),
    )).pending.contains(cue) && crate::drains::drains(before, policy, times.take(i)).origin
        == Some(origin) by {
        lemma_cue_waits(before, policy, times, origin, k, r, text, i);
    }
    let last = crate::drains::drains(before, policy, times.take(at));
    assert(last.origin == Some(origin) && last.pending.contains(cue));
    assert(times.take(at + 1).drop_last() =~= times.take(at));
    law_cue_goes_with_the_first_tag_of_its_millisecond(
        last,
        origin,
        k,
        r,
        text,
        times[at],
        policy,
    );
}

proof fn lemma_cue_waits(
    before: Timeline,
    policy: LatePolicy,
    times: Seq<nat>,
    origin: nat,
    k: nat,
    r: nat,
    text: Seq<char>,
    at: int,
)
    requires
        before.origin == Some(origin),
        k <= 0xffff_ffff,
        r < 1_000_000,
        before.pending.contains(
            (QueuedCue { running_time: origin + k * 1_000_000 + r, text }),
        ),
        0 <= at <= times.len(),
        forall|i: int| 0 <= i < at ==> #[trigger] times[i] < k,
    ensures
        crate::drains::drains(before, policy, times.take(at)).origin == Some(origin),
        crate::drains::drains(before, policy, times.take(at)).pending.contains(
            (QueuedCue { running_time: origin + k * 1_000_000 + r, text }),
        ),
    decreases at,
{
    if at > 0 {
        lemma_cue_waits(before, policy, times, origin, k, r, text, at - 1);
        assert(times.take(at).drop_last() =~= times.take(at - 1));
        assert(times[at - 1] < k);
        law_cue_goes_with_the_first_tag_of_its_millisecond(
            crate::drains::drains(before, policy, times.take(at - 1)),
            origin,
            k,
            r,
            text,
            times[at - 1],
            policy,
        );
    }
}

/// A cue's tag ends with its own size and belongs to stream zero.
pub(crate) proof fn lemma_cue_tag_ends_with_its_size(
    name: MessageName,
    timestamp_ms: nat,
    text: Seq<char>,
)
    ensures
        ({
            let tag = crate::timeline::cue_tag(name, timestamp_ms, text);
            let end = tag.len() - 4;
            &&& end >= 11
            &&& tag[0] == 18
            &&& tag[1] * 0x1_0000 + tag[2] * 0x100 + tag[3] == end - 11
            &&& tag[8] == 0 && tag[9] == 0 && tag[10] == 0
            &&& tag[end] * 0x100_0000 + tag[end + 1] * 0x1_0000 + tag[end + 2] * 0x100 + tag[end
                + 3] == end
        }),
{
    let body = crate::amf::script_data_body_bytes(name, text);
    crate::amf::lemma_body_fits(name, text);
    lemma_framed_body_ends_with_its_size(timestamp_ms, body);
}

proof fn lemma_framed_body_ends_with_its_size(timestamp_ms: nat, body: Seq<u8>)
    requires
        body.len() <= 0xff_ffff,
    ensures
        ({
            let tag = crate::flv::script_data_tag_bytes(timestamp_ms, body);
            let end = tag.len() - 4;
            &&& end >= 11
            &&& tag[0] == 18
            &&& tag[1] * 0x1_0000 + tag[2] * 0x100 + tag[3] == end - 11
            &&& tag[8] == 0 && tag[9] == 0 && tag[10] == 0
            &&& tag[end] * 0x100_0000 + tag[end + 1] * 0x1_0000 + tag[end + 2] * 0x100 + tag[end
                + 3] == end
        }),
{
    let head = seq![crate::flv::TAG_TYPE_SCRIPT_DATA] + crate::flv::be24(body.len())
        + crate::flv::be24(timestamp_ms % 0x100_0000) + seq![(timestamp_ms / 0x100_0000) as u8];
    assert(head[0] == 18);
    assert(head[1] == crate::flv::be24(body.len())[0]);
    assert(head[2] == crate::flv::be24(body.len())[1]);
    assert(head[3] == crate::flv::be24(body.len())[2]);
    lemma_three_bytes(body.len());
    lemma_behind_the_head(head, body);
}

proof fn lemma_behind_the_head(head: Seq<u8>, body: Seq<u8>)
    requires
        head.len() == 8,
        body.len() <= 0xff_ffff,
    ensures
        ({
            let tag = head + crate::flv::be24(0) + body + crate::flv::be32(11 + body.len());
            let end = tag.len() - 4;
            &&& end == body.len() + 11
            &&& tag[0] == head[0] && tag[1] == head[1] && tag[2] == head[2] && tag[3] == head[3]
            &&& tag[8] == 0 && tag[9] == 0 && tag[10] == 0
            &&& tag[end] * 0x100_0000 + tag[end + 1] * 0x1_0000 + tag[end + 2] * 0x100 + tag[end
                + 3] == end
        }),
{
    let total = 11 + body.len();
    let trailer = crate::flv::be32(total);
    let none = crate::flv::be24(0);
    let tag = head + none + body + trailer;
    let end = tag.len() - 4;
    lemma_three_bytes(0);
    lemma_four_bytes(total);
    assert(tag[8] == none[0] && tag[9] == none[1] && tag[10] == none[2]);
    assert(tag[end] == trailer[0] && tag[end + 1] == trailer[1]);
    assert(tag[end + 2] == trailer[2] && tag[end + 3] == trailer[3]);
}

proof fn lemma_three_bytes(value: nat)
    requires
        value < 0x100_0000,
    ensures
        ({
            let bytes = crate::flv::be24(value);
            &&& bytes.len() == 3
            &&& bytes[0] * 0x1_0000 + bytes[1] * 0x100 + bytes[2] == value
        }),
{
}

proof fn lemma_four_bytes(value: nat)
    requires
        value < 0x1_0000_0000,
    ensures
        ({
            let bytes = crate::flv::be32(value);
            &&& bytes.len() == 4
            &&& bytes[0] * 0x100_0000 + bytes[1] * 0x1_0000 + bytes[2] * 0x100 + bytes[3] == value
        }),
{
}

/// What goes out over the wire: bytes of the muxer as they came, and each cue as
/// a script-data tag with its time around a caption message with its text. The
/// declaration is such a tag around a zero width space.
pub proof fn law_pieces_on_the_wire(
    pieces: Seq<Piece>,
    name: MessageName,
    i: int,
)
    requires
        0 <= i < pieces.len(),
        match pieces[i] {
            Piece::Passed(_) => true,
            Piece::Priming { timestamp_ms } => timestamp_ms <= 0xffff_ffff,
            Piece::Cue { timestamp_ms, .. } => timestamp_ms <= 0xffff_ffff,
        },
    ensures
        crate::timeline::encoded(pieces, name).len() == pieces.len(),
        ({
            let out = crate::timeline::encoded(pieces, name)[i];
            let size = out.len() - 15;
            let body = out.subrange(11, 11 + size);
            let time_ms = out[7] * 0x100_0000 + out[4] * 0x1_0000 + out[5] * 0x100 + out[6];
            match pieces[i] {
                Piece::Passed(bytes) => out == bytes,
                Piece::Priming { timestamp_ms } => {
                    &&& size >= 0
                    &&& out[0] == 18
                    &&& out[1] * 0x1_0000 + out[2] * 0x100 + out[3] == size
                    &&& time_ms == timestamp_ms
                    &&& body == crate::amf::script_data_body_bytes(name, seq!['\u{200b}'])
                },
                Piece::Cue { timestamp_ms, text } => {
                    &&& size >= 0
                    &&& out[0] == 18
                    &&& out[1] * 0x1_0000 + out[2] * 0x100 + out[3] == size
                    &&& time_ms == timestamp_ms
                    &&& body == crate::amf::script_data_body_bytes(name, text)
                },
            }
        }),
{
    reveal_strlit("\u{200b}");
    assert(crate::timeline::priming_text() =~= seq!['\u{200b}']);
    assert(crate::timeline::encoded(pieces, name)[i] == pieces[i].bytes(name));
    match pieces[i] {
        Piece::Passed(_) => {},
        Piece::Priming { timestamp_ms } => {
            let text = crate::timeline::priming_text();
            crate::amf::lemma_body_fits(name, text);
            crate::flv::law_script_data_tag_layout(
                timestamp_ms as u32,
                crate::amf::script_data_body_bytes(name, text),
            );
        },
        Piece::Cue { timestamp_ms, text } => {
            crate::amf::lemma_body_fits(name, text);
            crate::flv::law_script_data_tag_layout(
                timestamp_ms as u32,
                crate::amf::script_data_body_bytes(name, text),
            );
        },
    }
}

/// A segment in time takes the place of the one kept for its pad, and no other
/// event changes it.
pub proof fn law_only_a_segment_in_time_is_kept(event: PadEvent)
    ensures
        crate::subinject::segment_change(event) == if event == (PadEvent::Segment {
            in_time: true,
        }) {
            SegmentChange::Replace
        } else {
            SegmentChange::Keep
        },
{
}

/// The buffers that are returned hold what their contents say, one for one; and
/// cues go out under the name that is set, whatever else is.
pub proof fn law_buffers_and_names(injector: FlvSubInject, buffers: Seq<Vec<u8>>)
    ensures
        crate::subinject::contents(buffers).len() == buffers.len(),
        forall|i: int|
            0 <= i < buffers.len() ==> #[trigger] crate::subinject::contents(buffers)[i]
                == buffers[i]@,
        injector.message_name() is OnCaption <==> injector.settings().message_name is OnCaption,
        injector.message_name() is OnTextData <==> injector.settings().message_name is OnTextData,
{
}

} // verus!
