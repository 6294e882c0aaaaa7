//! What the injector promises of a whole stream, however cues and buffers
//! interleave: the first one, and any that starts with a flush.

use vstd::prelude::*;

use crate::amf::MessageName;
use crate::flv::FILE_HEADER_LEN;
use crate::settings::{LatePolicy, Settings};
use crate::timeline::{Piece, QueuedCue, Timeline};

verus! {

/// What can come in, from either side.
pub enum Input {
    /// A cue of the text pad.
    Cue(QueuedCue),
    /// A buffer of the muxer, with its running time if it has one.
    Bytes { data: Seq<u8>, running_time: Option<nat> },
}

/// Where a stream is after `inputs`.
pub open spec fn run(before: Timeline, settings: Settings, inputs: Seq<Input>) -> Timeline
    decreases inputs.len(),
{
    if inputs.len() == 0 {
        before
    } else {
        let last = run(before, settings, inputs.drop_last());
        match inputs.last() {
            Input::Cue(cue) => last.queued(cue),
            Input::Bytes { data, running_time } => last.received(settings, data, running_time),
        }
    }
}

/// What went out during `inputs`.
pub open spec fn run_pieces(
    before: Timeline,
    settings: Settings,
    inputs: Seq<Input>,
) -> Seq<Piece>
    decreases inputs.len(),
{
    if inputs.len() == 0 {
        Seq::empty()
    } else {
        let last = run(before, settings, inputs.drop_last());
        run_pieces(before, settings, inputs.drop_last()) + match inputs.last() {
            Input::Cue(_) => Seq::empty(),
            Input::Bytes { data, running_time } => last.received_pieces(
                settings,
                data,
                running_time,
            ),
        }
    }
}

/// The muxer's bytes among `inputs`, one behind another.
pub open spec fn input_bytes(inputs: Seq<Input>) -> Seq<u8>
    decreases inputs.len(),
{
    if inputs.len() == 0 {
        Seq::empty()
    } else {
        input_bytes(inputs.drop_last()) + match inputs.last() {
            Input::Cue(_) => Seq::empty(),
            Input::Bytes { data, .. } => data,
        }
    }
}

/// How many of `inputs` are cues.
pub open spec fn input_cues(inputs: Seq<Input>) -> nat
    decreases inputs.len(),
{
    if inputs.len() == 0 {
        0
    } else {
        input_cues(inputs.drop_last()) + if inputs.last() is Cue {
            1nat
        } else {
            0nat
        }
    }
}

/// However cues and buffers interleave, the muxer's bytes pass through a whole
/// stream unchanged and in order.
pub proof fn law_stream_passes_through(
    before: Timeline,
    settings: Settings,
    inputs: Seq<Input>,
)
    ensures
        crate::laws::passed_bytes(run_pieces(before, settings, inputs)) + run(
            before,
            settings,
            inputs,
        ).partial == before.partial + input_bytes(inputs),
    decreases inputs.len(),
{
    if inputs.len() == 0 {
        assert(crate::laws::passed_bytes(Seq::<Piece>::empty()) + before.partial =~= before.partial
            + Seq::<u8>::empty());
    } else {
        let shorter = inputs.drop_last();
        let last = run(before, settings, shorter);
        let pieces = run_pieces(before, settings, shorter);
        law_stream_passes_through(before, settings, shorter);
        match inputs.last() {
            Input::Cue(_) => {
                assert(pieces + Seq::<Piece>::empty() =~= pieces);
                assert(input_bytes(shorter) + Seq::<u8>::empty() =~= input_bytes(shorter));
            },
            Input::Bytes { data, running_time } => {
                crate::laws::law_bytes_pass_through(last, settings, data, running_time);
                let more = last.received_pieces(settings, data, running_time);
                let next = last.received(settings, data, running_time);
                crate::laws::lemma_passed_bytes_concat(pieces, more);
                lemma_concat_is_associative(
                    crate::laws::passed_bytes(pieces),
                    crate::laws::passed_bytes(more),
                    next.partial,
                );
                lemma_concat_is_associative(crate::laws::passed_bytes(pieces), last.partial, data);
                lemma_concat_is_associative(before.partial, input_bytes(shorter), data);
            },
        }
    }
}

proof fn lemma_concat_is_associative(first: Seq<u8>, second: Seq<u8>, third: Seq<u8>)
    ensures
        (first + second) + third == first + (second + third),
{
    assert((first + second) + third =~= first + (second + third));
}

/// Whether `bytes` is a number of whole tags, each fifteen bytes and as many more
/// as its second to fourth byte say.
pub open spec fn is_tags(bytes: Seq<u8>) -> bool
    decreases bytes.len(),
{
    bytes.len() == 0 || {
        let len = 15 + bytes[1] * 0x1_0000 + bytes[2] * 0x100 + bytes[3];
        15 <= len <= bytes.len() && is_tags(bytes.skip(len))
    }
}

/// Whether `bytes` is a file header and a number of whole tags. A file header is
/// told by its first three bytes, whatever the other ten are.
pub open spec fn is_flv_stream(bytes: Seq<u8>) -> bool {
    &&& bytes.len() >= 13
    &&& bytes[0] == 0x46 && bytes[1] == 0x4c && bytes[2] == 0x56
    &&& is_tags(bytes.skip(13))
}

proof fn lemma_spliced_stops_between_tags(before: Timeline, settings: Settings, ahead: Seq<u8>)
    requires
        is_tags(before.partial + ahead),
    ensures
        is_tags(before.spliced(settings).partial + ahead),
    decreases before.partial.len(),
{
    if crate::flv::starts_with_tag(before.partial) {
        crate::laws::lemma_tag_is_self_delimiting(before.partial, ahead);
        let total = crate::flv::tag_header(before.partial).tag_len() as int;
        assert((before.partial + ahead).skip(total) =~= before.partial.skip(total) + ahead);
        lemma_spliced_stops_between_tags(before.advanced(settings), settings, ahead);
    }
}

/// Whether what `timeline` holds, with `ahead` still to come, goes on where a
/// well-formed stream would.
spec fn is_on_track(timeline: Timeline, ahead: Seq<u8>) -> bool {
    if timeline.header_seen {
        is_tags(timeline.partial + ahead)
    } else {
        is_flv_stream(timeline.partial + ahead)
    }
}

proof fn lemma_received_stays_on_track(
    before: Timeline,
    settings: Settings,
    data: Seq<u8>,
    running_time: Option<nat>,
    ahead: Seq<u8>,
)
    requires
        is_on_track(before, data + ahead),
    ensures
        is_on_track(before.received(settings, data, running_time), ahead),
{
    let fed = before.fed(data, running_time);
    let opened = fed.opened();
    assert(before.partial + (data + ahead) =~= fed.partial + ahead);
    if opened.header_seen {
        if !before.header_seen {
            assert(forall|i: int|
                0 <= i < fed.partial.len() ==> (fed.partial + ahead)[i] == fed.partial[i]);
            assert((fed.partial + ahead).skip(FILE_HEADER_LEN as int) =~= opened.partial + ahead);
        }
        lemma_spliced_stops_between_tags(opened, settings, ahead);
        crate::laws::lemma_spliced_keeps_origin(opened, settings);
    }
}

proof fn lemma_run_stays_on_track(
    before: Timeline,
    settings: Settings,
    inputs: Seq<Input>,
    ahead: Seq<u8>,
)
    requires
        is_on_track(before, input_bytes(inputs) + ahead),
    ensures
        is_on_track(run(before, settings, inputs), ahead),
    decreases inputs.len(),
{
    if inputs.len() == 0 {
        assert(input_bytes(inputs) + ahead =~= ahead);
    } else {
        let shorter = inputs.drop_last();
        match inputs.last() {
            Input::Cue(_) => {
                assert(input_bytes(inputs) =~= input_bytes(shorter));
                lemma_run_stays_on_track(before, settings, shorter, ahead);
            },
            Input::Bytes { data, running_time } => {
                assert(input_bytes(inputs) + ahead =~= input_bytes(shorter) + (data + ahead));
                lemma_run_stays_on_track(before, settings, shorter, data + ahead);
                lemma_received_stays_on_track(
                    run(before, settings, shorter),
                    settings,
                    data,
                    running_time,
                    ahead,
                );
            },
        }
    }
}

proof fn lemma_run_settled(before: Timeline, settings: Settings, inputs: Seq<Input>)
    requires
        before.settled(),
    ensures
        run(before, settings, inputs).settled(),
        run(before, settings, inputs).accepted() == before.accepted() + input_cues(inputs),
    decreases inputs.len(),
{
    if inputs.len() > 0 {
        let shorter = inputs.drop_last();
        let last = run(before, settings, shorter);
        lemma_run_settled(before, settings, shorter);
        match inputs.last() {
            Input::Cue(cue) => {
                last.lemma_queued(cue);
            },
            Input::Bytes { data, running_time } => {
                last.lemma_received_settled(settings, data, running_time);
            },
        }
    }
}

/// Of a well-formed stream, all has passed through at its end: the muxer's part
/// of the output is the input, byte for byte, and nothing is held back.
pub proof fn law_well_formed_stream_passes_whole(
    before: Timeline,
    settings: Settings,
    inputs: Seq<Input>,
)
    requires
        before.is_fresh(),
        is_flv_stream(input_bytes(inputs)),
    ensures
        crate::laws::passed_bytes(run_pieces(before, settings, inputs)) == input_bytes(inputs),
        run(before, settings, inputs).partial.len() == 0,
        run(before, settings, inputs).header_seen,
{
    let after = run(before, settings, inputs);
    let none = Seq::<u8>::empty();
    assert(before.partial + (input_bytes(inputs) + none) =~= input_bytes(inputs));
    lemma_run_stays_on_track(before, settings, inputs, none);
    lemma_run_settled(before, settings, inputs);
    assert(after.partial + none =~= after.partial);
    law_stream_passes_through(before, settings, inputs);
    assert(before.partial + input_bytes(inputs) =~= input_bytes(inputs));
    let passed = crate::laws::passed_bytes(run_pieces(before, settings, inputs));
    assert(passed + none =~= passed);
    assert(after.partial =~= none);
}

proof fn lemma_run_in_silence(before: Timeline, settings: Settings, inputs: Seq<Input>)
    requires
        before.pending.len() == 0,
        before.primed || !settings.prime,
        input_cues(inputs) == 0,
    ensures
        run(before, settings, inputs).pending.len() == 0,
        run(before, settings, inputs).primed == before.primed,
        ({
            let pieces = run_pieces(before, settings, inputs);
            forall|i: int| 0 <= i < pieces.len() ==> #[trigger] pieces[i] is Passed
        }),
    decreases inputs.len(),
{
    if inputs.len() > 0 {
        let shorter = inputs.drop_last();
        let last = run(before, settings, shorter);
        lemma_run_in_silence(before, settings, shorter);
        if let Input::Bytes { data, running_time } = inputs.last() {
            let opened = last.fed(data, running_time).opened();
            if opened.header_seen {
                crate::laws::lemma_spliced_in_silence(opened, settings);
            }
        }
    }
}

/// A well-formed stream without cues, and with no declaration owed, comes out as
/// it went in, byte for byte, whatever its buffers; and its end adds nothing.
pub proof fn law_uncaptioned_stream_is_untouched(
    before: Timeline,
    settings: Settings,
    inputs: Seq<Input>,
    name: MessageName,
)
    requires
        before.is_fresh(),
        before.primed || !settings.prime,
        input_cues(inputs) == 0,
        is_flv_stream(input_bytes(inputs)),
    ensures
        crate::timeline::encoded(
            run_pieces(before, settings, inputs),
            name,
        ).flatten() == input_bytes(inputs),
        run(before, settings, inputs).finished_pieces(settings.late_policy).len()
            == 0,
{
    law_well_formed_stream_passes_whole(before, settings, inputs);
    lemma_run_in_silence(before, settings, inputs);
    crate::laws::lemma_only_passed(run_pieces(before, settings, inputs), name);
    reveal(Seq::filter);
}

proof fn lemma_run_counts(before: Timeline, settings: Settings, inputs: Seq<Input>)
    requires
        before.settled(),
    ensures
        run(before, settings, inputs).written == before.written + crate::laws::cue_count(
            run_pieces(before, settings, inputs),
        ),
        settings.late_policy is Clamp ==> run(before, settings, inputs).dropped
            == before.dropped,
    decreases inputs.len(),
{
    if inputs.len() > 0 {
        let shorter = inputs.drop_last();
        let last = run(before, settings, shorter);
        let pieces = run_pieces(before, settings, shorter);
        lemma_run_counts(before, settings, shorter);
        lemma_run_settled(before, settings, shorter);
        match inputs.last() {
            Input::Cue(_) => {
                assert(pieces + Seq::<Piece>::empty() =~= pieces);
            },
            Input::Bytes { data, running_time } => {
                crate::laws::law_no_cue_is_lost(last, settings, data, running_time);
                crate::laws::lemma_cue_count_concat(
                    pieces,
                    last.received_pieces(settings, data, running_time),
                );
            },
        }
    }
}

proof fn lemma_spliced_keeps_cues_without_origin(before: Timeline, settings: Settings)
    requires
        before.origin is None,
    ensures
        before.spliced(settings).pending == before.pending,
    decreases before.partial.len(),
{
    if crate::flv::starts_with_tag(before.partial) {
        lemma_spliced_keeps_cues_without_origin(before.advanced(settings), settings);
    }
}

/// Whether `cue` waits in `timeline`, or went out among `pieces` no earlier than
/// its own time.
spec fn is_accounted_for(timeline: Timeline, pieces: Seq<Piece>, cue: QueuedCue) -> bool {
    timeline.pending.contains(cue) || (timeline.origin is Some && crate::laws::is_written(
        pieces,
        timeline.origin->0,
        cue,
    ))
}

proof fn lemma_received_accounts_for(
    before: Timeline,
    settings: Settings,
    data: Seq<u8>,
    running_time: Option<nat>,
    pieces: Seq<Piece>,
    cue: QueuedCue,
)
    requires
        settings.late_policy is Clamp,
        is_accounted_for(before, pieces, cue),
    ensures
        is_accounted_for(
            before.received(settings, data, running_time),
            pieces + before.received_pieces(settings, data, running_time),
            cue,
        ),
{
    let fed = before.fed(data, running_time);
    let opened = fed.opened();
    let after = before.received(settings, data, running_time);
    let more = before.received_pieces(settings, data, running_time);
    crate::laws::lemma_spliced_keeps_origin(opened, settings);
    match fed.origin {
        None => {
            lemma_spliced_keeps_cues_without_origin(opened, settings);
        },
        Some(origin) => {
            if before.pending.contains(cue) {
                crate::laws::law_every_cue_waits_or_is_written(
                    before,
                    settings,
                    data,
                    running_time,
                    origin,
                    cue,
                );
            }
            if !after.pending.contains(cue) {
                crate::laws::lemma_written_in_concat(pieces, more, origin, cue);
            }
        },
    }
}

proof fn lemma_queued_accounts_for(
    before: Timeline,
    added: QueuedCue,
    pieces: Seq<Piece>,
    cue: QueuedCue,
)
    requires
        before.in_order(),
        cue == added || is_accounted_for(before, pieces, cue),
    ensures
        is_accounted_for(before.queued(added), pieces, cue),
{
    crate::laws::law_queue_is_stable(before, added);
    let after = before.queued(added).pending;
    let first = before.pending.filter(crate::timeline::not_after(added.running_time)).len() as int;
    let at = crate::timeline::split_point(before.pending, added.running_time);
    crate::timeline::lemma_split_point(before.pending, added.running_time);
    crate::timeline::lemma_queue_splits(before.pending, at, added.running_time);
    if cue == added {
        assert(after[first] == cue);
    } else if before.pending.contains(cue) {
        let i = before.pending.index_of(cue);
        if i < first {
            assert(after[i] == cue);
        } else {
            assert(after[i + 1] == cue);
        }
    }
}

proof fn lemma_run_accounts_for(
    before: Timeline,
    settings: Settings,
    inputs: Seq<Input>,
    cue: QueuedCue,
)
    requires
        before.is_fresh(),
        settings.late_policy is Clamp,
        inputs.contains(Input::Cue(cue)),
    ensures
        is_accounted_for(
            run(before, settings, inputs),
            run_pieces(before, settings, inputs),
            cue,
        ),
    decreases inputs.len(),
{
    let shorter = inputs.drop_last();
    let last = run(before, settings, shorter);
    let pieces = run_pieces(before, settings, shorter);
    lemma_run_settled(before, settings, shorter);
    if inputs.last() != Input::Cue(cue) {
        let i = inputs.index_of(Input::Cue(cue));
        assert(shorter[i] == Input::Cue(cue));
        lemma_run_accounts_for(before, settings, shorter, cue);
    }
    match inputs.last() {
        Input::Cue(added) => {
            assert(pieces + Seq::<Piece>::empty() =~= pieces);
            lemma_queued_accounts_for(last, added, pieces, cue);
        },
        Input::Bytes { data, running_time } => {
            lemma_received_accounts_for(last, settings, data, running_time, pieces, cue);
        },
    }
}

/// Where late cues are moved and not discarded, a stream that has started and
/// whose clock is known has written every cue by its end: each goes out with
/// its text and never before its time, and as many go out as came in.
pub proof fn law_every_cue_is_written_by_the_end(
    before: Timeline,
    settings: Settings,
    inputs: Seq<Input>,
)
    requires
        before.is_fresh(),
        settings.late_policy is Clamp,
        run(before, settings, inputs).origin is Some,
        run(before, settings, inputs).header_seen,
    ensures
        ({
            let end = run(before, settings, inputs);
            let pieces = run_pieces(before, settings, inputs)
                + end.finished_pieces(settings.late_policy);
            &&& crate::laws::cue_count(pieces) == input_cues(inputs)
            &&& forall|cue: QueuedCue| #[trigger]
                inputs.contains(Input::Cue(cue)) ==> crate::laws::is_written(
                    pieces,
                    end.origin->0,
                    cue,
                )
        }),
{
    let end = run(before, settings, inputs);
    let sent = run_pieces(before, settings, inputs);
    let rest = end.finished_pieces(settings.late_policy);
    lemma_run_settled(before, settings, inputs);
    lemma_run_counts(before, settings, inputs);
    crate::laws::law_no_cue_is_lost(end, settings, Seq::empty(), None);
    crate::laws::law_stream_ends_in_order(end, settings.late_policy, MessageName::OnCaption);
    crate::laws::lemma_cue_count_concat(sent, rest);
    assert forall|cue: QueuedCue| #[trigger] inputs.contains(Input::Cue(cue)) implies
        crate::laws::is_written(sent + rest, end.origin->0, cue) by {
        lemma_run_accounts_for(before, settings, inputs, cue);
        if end.pending.contains(cue) {
            crate::laws::law_every_cue_waits_or_is_written(
                end,
                settings,
                Seq::empty(),
                None,
                end.origin->0,
                cue,
            );
        }
        crate::laws::lemma_written_in_concat(sent, rest, end.origin->0, cue);
    }
}

/// A tag is no file header: it is longer.
proof fn lemma_framed_is_no_file_header(piece: Piece, name: MessageName)
    requires
        crate::laws::is_framed(piece, name),
    ensures
        !crate::laws::is_file_header(piece),
{
}

proof fn lemma_spliced_ends_at_its_last_tag(before: Timeline, settings: Settings)
    ensures
        ({
            let pieces = before.spliced_pieces(settings);
            before.spliced(settings).position_ms == if pieces.len() == 0 {
                before.position_ms
            } else {
                crate::laws::timestamp_of(pieces.last())
            }
        }),
    decreases before.partial.len(),
{
    if crate::flv::starts_with_tag(before.partial) {
        let next = before.advanced(settings);
        let first = before.advanced_pieces(settings);
        let rest = next.spliced_pieces(settings);
        lemma_spliced_ends_at_its_last_tag(next, settings);
        crate::laws::lemma_advanced_is_framed(before, settings, MessageName::OnCaption);
        if rest.len() == 0 {
            assert(first + rest =~= first);
            assert(first[first.len() - 1] == first.last());
        } else {
            assert((first + rest).last() == rest.last());
        }
    }
}

/// Where the stream is with `pieces` gone out: at the tag passed on last, and
/// where it was before the first.
spec fn position_behind(start: nat, pieces: Seq<Piece>) -> nat {
    if pieces.len() == 0 || crate::laws::is_file_header(pieces.last()) {
        start
    } else {
        crate::laws::timestamp_of(pieces.last())
    }
}

proof fn lemma_received_position(
    before: Timeline,
    settings: Settings,
    data: Seq<u8>,
    running_time: Option<nat>,
)
    ensures
        before.received(settings, data, running_time).position_ms == position_behind(
            before.position_ms,
            before.received_pieces(settings, data, running_time),
        ),
        before.received(settings, data, running_time).header_seen || before.received_pieces(
            settings,
            data,
            running_time,
        ).len() == 0,
        before.header_seen ==> before.received(settings, data, running_time).header_seen,
{
    let fed = before.fed(data, running_time);
    let opened = fed.opened();
    let first = fed.opened_pieces();
    let rest = opened.spliced_pieces(settings);
    if opened.header_seen {
        lemma_spliced_ends_at_its_last_tag(opened, settings);
        crate::laws::lemma_spliced_keeps_origin(opened, settings);
        crate::laws::lemma_spliced_is_framed(opened, settings, MessageName::OnCaption);
        if rest.len() == 0 {
            assert(first + rest =~= first);
        } else {
            assert((first + rest).last() == rest.last());
            assert(rest[rest.len() - 1] == rest.last());
            lemma_framed_is_no_file_header(rest.last(), MessageName::OnCaption);
        }
    }
}

/// Over a whole stream the output is never torn: every buffer is one whole tag,
/// but for the file header, which comes first if at all. A tag of the
/// injector's own carries the timestamp of the tag behind it. Where the stream
/// is, the tag passed on last was.
pub proof fn law_stream_output_is_framed(
    before: Timeline,
    settings: Settings,
    inputs: Seq<Input>,
    name: MessageName,
)
    requires
        before.is_fresh(),
    ensures
        ({
            let end = run(before, settings, inputs);
            let pieces = run_pieces(before, settings, inputs);
            &&& crate::laws::leads_to_tags(pieces)
            &&& forall|i: int|
                #![trigger pieces[i]]
                0 <= i < pieces.len() ==> crate::laws::is_framed(pieces[i], name) || (i == 0
                    && crate::laws::is_file_header(pieces[i]))
            &&& pieces.len() > 0 ==> end.header_seen
            &&& pieces.len() > 0 && !crate::laws::is_file_header(pieces.last())
                ==> end.position_ms == crate::laws::timestamp_of(pieces.last())
        }),
    decreases inputs.len(),
{
    if inputs.len() > 0 {
        let shorter = inputs.drop_last();
        let last = run(before, settings, shorter);
        let sent = run_pieces(before, settings, shorter);
        law_stream_output_is_framed(before, settings, shorter, name);
        match inputs.last() {
            Input::Cue(_) => {
                assert(sent + Seq::<Piece>::empty() =~= sent);
            },
            Input::Bytes { data, running_time } => {
                let more = last.received_pieces(settings, data, running_time);
                let pieces = sent + more;
                crate::laws::law_output_is_framed(last, settings, data, running_time, name);
                crate::laws::lemma_leads_to_tags_concat(sent, more);
                lemma_received_position(last, settings, data, running_time);
                assert forall|i: int|
                    #![trigger pieces[i]]
                    0 <= i < pieces.len() implies crate::laws::is_framed(pieces[i], name) || (i
                    == 0 && crate::laws::is_file_header(pieces[i])) by {
                    if i < sent.len() {
                        assert(pieces[i] == sent[i]);
                    } else {
                        assert(pieces[i] == more[i - sent.len()]);
                    }
                }
                if more.len() == 0 {
                    assert(pieces =~= sent);
                } else {
                    assert(pieces.last() == more.last());
                }
            },
        }
    }
}

/// Over a whole stream the output is in order of time wherever the muxer's tags
/// are, whenever the cues come in; and what goes out at the end of the stream
/// comes behind all of it. The file header alone has no time.
pub proof fn law_stream_output_is_in_order(before: Timeline, settings: Settings, inputs: Seq<Input>)
    requires
        before.is_fresh(),
        ({
            let pieces = run_pieces(before, settings, inputs);
            forall|i: int, j: int|
                #![trigger pieces[i], pieces[j]]
                0 <= i <= j < pieces.len() && pieces[i] is Passed && pieces[j] is Passed
                    && !crate::laws::is_file_header(pieces[i]) && !crate::laws::is_file_header(
                    pieces[j],
                ) ==> crate::laws::timestamp_of(pieces[i]) <= crate::laws::timestamp_of(pieces[j])
        }),
    ensures
        ({
            let end = run(before, settings, inputs);
            let pieces = run_pieces(before, settings, inputs)
                + end.finished_pieces(settings.late_policy);
            forall|i: int, j: int|
                #![trigger pieces[i], pieces[j]]
                0 <= i <= j < pieces.len() && !crate::laws::is_file_header(pieces[i])
                    && !crate::laws::is_file_header(pieces[j]) ==> crate::laws::timestamp_of(
                    pieces[i],
                ) <= crate::laws::timestamp_of(pieces[j])
        }),
{
    let name = MessageName::OnCaption;
    let end = run(before, settings, inputs);
    let sent = run_pieces(before, settings, inputs);
    let rest = end.finished_pieces(settings.late_policy);
    let pieces = sent + rest;
    let from = header_count(sent);
    lemma_run_settled(before, settings, inputs);
    law_stream_output_is_framed(before, settings, inputs, name);
    crate::laws::law_stream_ends_in_order(end, settings.late_policy, name);
    assert forall|k: int, l: int|
        #![trigger sent[k], sent[l]]
        from <= k <= l < sent.len() && sent[k] is Passed && sent[l] is Passed implies
        crate::laws::timestamp_of(sent[k]) <= crate::laws::timestamp_of(sent[l]) by {
        lemma_only_the_first_is_a_file_header(sent, k, name);
        lemma_only_the_first_is_a_file_header(sent, l, name);
    }
    assert forall|i: int, j: int|
        #![trigger pieces[i], pieces[j]]
        0 <= i <= j < pieces.len() && !crate::laws::is_file_header(pieces[i])
            && !crate::laws::is_file_header(pieces[j]) implies crate::laws::timestamp_of(pieces[i])
        <= crate::laws::timestamp_of(pieces[j]) by {
        if j < sent.len() {
            assert(pieces[i] == sent[i] && pieces[j] == sent[j]);
            crate::laws::lemma_order_carries_over(sent, from, i, j);
        } else if i < sent.len() {
            let last = sent.len() - 1;
            assert(pieces[i] == sent[i]);
            assert(pieces[j] == rest[j - sent.len()]);
            lemma_only_the_first_is_a_file_header(sent, last, name);
            crate::laws::lemma_order_carries_over(sent, from, i, last);
        } else {
            assert(pieces[i] == rest[i - sent.len()]);
            assert(pieces[j] == rest[j - sent.len()]);
        }
    }
}

/// How many of `pieces` are the file header: one where it comes first, or none.
pub open spec fn header_count(pieces: Seq<Piece>) -> int {
    if pieces.len() > 0 && crate::laws::is_file_header(pieces[0]) {
        1
    } else {
        0
    }
}

proof fn lemma_only_the_first_is_a_file_header(pieces: Seq<Piece>, at: int, name: MessageName)
    requires
        header_count(pieces) <= at < pieces.len(),
        crate::laws::is_framed(pieces[at], name) || (at == 0 && crate::laws::is_file_header(
            pieces[at],
        )),
    ensures
        !crate::laws::is_file_header(pieces[at]),
{
    if crate::laws::is_framed(pieces[at], name) {
        lemma_framed_is_no_file_header(pieces[at], name);
    }
}

/// Before the first tag nothing has gone out but the file header.
proof fn lemma_received_without_a_tag(
    before: Timeline,
    settings: Settings,
    data: Seq<u8>,
    running_time: Option<nat>,
)
    requires
        !crate::flv::starts_with_tag(before.fed(data, running_time).opened().partial),
    ensures
        before.received_pieces(settings, data, running_time) == before.fed(
            data,
            running_time,
        ).opened_pieces(),
{
    let fed = before.fed(data, running_time);
    assert(fed.opened_pieces() + Seq::<Piece>::empty() =~= fed.opened_pieces());
}

/// Whether `pieces` declare the subtitle stream exactly once, in the first tag
/// behind the file header; or not at all, where no tag has gone out.
pub open spec fn is_declared_once(pieces: Seq<Piece>) -> bool {
    let from = header_count(pieces);
    &&& pieces.len() > from ==> pieces[from] is Priming
    &&& forall|i: int|
        0 <= i < pieces.len() && i != from ==> !(#[trigger] pieces[i] is Priming)
}

proof fn lemma_run_declares_once(before: Timeline, settings: Settings, inputs: Seq<Input>)
    requires
        before.is_fresh(),
        settings.prime,
        !before.primed,
    ensures
        ({
            let end = run(before, settings, inputs);
            let pieces = run_pieces(before, settings, inputs);
            &&& is_declared_once(pieces)
            &&& end.primed == (pieces.len() > header_count(pieces))
        }),
    decreases inputs.len(),
{
    if inputs.len() > 0 {
        let shorter = inputs.drop_last();
        let last = run(before, settings, shorter);
        let sent = run_pieces(before, settings, shorter);
        lemma_run_declares_once(before, settings, shorter);
        law_stream_output_is_framed(before, settings, shorter, MessageName::OnCaption);
        match inputs.last() {
            Input::Cue(_) => {
                assert(sent + Seq::<Piece>::empty() =~= sent);
            },
            Input::Bytes { data, running_time } => {
                lemma_declared_with_the_next_buffer(last, settings, data, running_time, sent);
            },
        }
    }
}

proof fn lemma_declared_with_the_next_buffer(
    before: Timeline,
    settings: Settings,
    data: Seq<u8>,
    running_time: Option<nat>,
    sent: Seq<Piece>,
)
    requires
        settings.prime,
        is_declared_once(sent),
        before.primed == (sent.len() > header_count(sent)),
        sent.len() > 0 ==> before.header_seen,
    ensures
        ({
            let pieces = sent + before.received_pieces(settings, data, running_time);
            &&& is_declared_once(pieces)
            &&& before.received(settings, data, running_time).primed == (pieces.len()
                > header_count(pieces))
        }),
{
    let fed = before.fed(data, running_time);
    let opened = fed.opened();
    let more = before.received_pieces(settings, data, running_time);
    let pieces = sent + more;
    crate::laws::law_priming_comes_once_and_first(before, settings, data, running_time);
    if sent.len() > 0 {
        assert(pieces[0] == sent[0]);
    } else {
        assert(pieces =~= more);
    }
    if !crate::flv::starts_with_tag(opened.partial) {
        lemma_received_without_a_tag(before, settings, data, running_time);
    } else if more.len() > 0 {
        assert(pieces[sent.len() as int] == more[0]);
    }
    let from = header_count(pieces);
    assert forall|i: int| 0 <= i < pieces.len() && i != from implies !(
    #[trigger] pieces[i] is Priming) by {
        if i < sent.len() {
            assert(pieces[i] == sent[i]);
        } else {
            assert(pieces[i] == more[i - sent.len()]);
        }
    }
    if before.primed {
        assert(pieces[from] == sent[from]);
    } else if more.len() > 0 && crate::flv::starts_with_tag(opened.partial) {
        assert(pieces[from] == more[from - sent.len()]);
    }
}

proof fn lemma_run_does_not_declare(before: Timeline, settings: Settings, inputs: Seq<Input>)
    requires
        before.primed || !settings.prime,
    ensures
        run(before, settings, inputs).primed == before.primed,
        ({
            let pieces = run_pieces(before, settings, inputs);
            forall|i: int| 0 <= i < pieces.len() ==> !(#[trigger] pieces[i] is Priming)
        }),
    decreases inputs.len(),
{
    if inputs.len() > 0 {
        let shorter = inputs.drop_last();
        let last = run(before, settings, shorter);
        lemma_run_does_not_declare(before, settings, shorter);
        if let Input::Bytes { data, running_time } = inputs.last() {
            crate::laws::law_priming_comes_once_and_first(last, settings, data, running_time);
        }
    }
}

proof fn lemma_leads_up_to_the_tag(pieces: Seq<Piece>, from: int, to: int)
    requires
        crate::laws::leads_to_tags(pieces),
        0 <= from <= to < pieces.len(),
        forall|i: int| from <= i < to ==> !(#[trigger] pieces[i] is Passed),
    ensures
        crate::laws::timestamp_of(pieces[from]) == crate::laws::timestamp_of(pieces[to]),
    decreases to - from,
{
    if from < to {
        assert(crate::laws::timestamp_of(pieces[from]) == crate::laws::timestamp_of(
            pieces[from + 1],
        ));
        lemma_leads_up_to_the_tag(pieces, from + 1, to);
    }
}

/// Over a whole stream the subtitle stream is declared exactly once as soon as a
/// tag has passed: before everything but the file header, and at the time of
/// the muxer's first tag. Where that is not wanted, or where it was declared
/// before a flush, it is not declared.
pub proof fn law_stream_is_declared_once(before: Timeline, settings: Settings, inputs: Seq<Input>)
    requires
        before.is_fresh(),
    ensures
        ({
            let pieces = run_pieces(before, settings, inputs);
            let from = header_count(pieces);
            if settings.prime && !before.primed {
                &&& is_declared_once(pieces)
                &&& forall|first: int|
                    #![trigger pieces[first]]
                    from < first < pieces.len() && pieces[first] is Passed && (forall|i: int|
                        from <= i < first ==> !(#[trigger] pieces[i] is Passed))
                        ==> crate::laws::timestamp_of(pieces[from]) == crate::laws::timestamp_of(
                        pieces[first],
                    )
            } else {
                forall|i: int| 0 <= i < pieces.len() ==> !(#[trigger] pieces[i] is Priming)
            }
        }),
{
    let pieces = run_pieces(before, settings, inputs);
    let from = header_count(pieces);
    if settings.prime && !before.primed {
        lemma_run_declares_once(before, settings, inputs);
        law_stream_output_is_framed(before, settings, inputs, MessageName::OnCaption);
        assert forall|first: int|
            #![trigger pieces[first]]
            from < first < pieces.len() && pieces[first] is Passed && (forall|i: int|
                from <= i < first ==> !(#[trigger] pieces[i] is Passed)) implies
            crate::laws::timestamp_of(pieces[from]) == crate::laws::timestamp_of(
            pieces[first],
        ) by {
            lemma_leads_up_to_the_tag(pieces, from, first);
        }
    } else {
        lemma_run_does_not_declare(before, settings, inputs);
    }
}

proof fn lemma_spliced_without_cues(before: Timeline, settings: Settings)
    requires
        before.pending.len() == 0,
    ensures
        before.spliced(settings).pending.len() == 0,
        ({
            let pieces = before.spliced_pieces(settings);
            forall|i: int| 0 <= i < pieces.len() ==> !(#[trigger] pieces[i] is Cue)
        }),
    decreases before.partial.len(),
{
    if crate::flv::starts_with_tag(before.partial) {
        reveal(Seq::filter);
        lemma_spliced_without_cues(before.advanced(settings), settings);
    }
}

proof fn lemma_run_without_cues(before: Timeline, settings: Settings, inputs: Seq<Input>)
    requires
        before.is_fresh(),
        input_cues(inputs) == 0,
    ensures
        run(before, settings, inputs).pending.len() == 0,
        ({
            let pieces = run_pieces(before, settings, inputs);
            forall|i: int| 0 <= i < pieces.len() ==> !(#[trigger] pieces[i] is Cue)
        }),
    decreases inputs.len(),
{
    if inputs.len() > 0 {
        let shorter = inputs.drop_last();
        let last = run(before, settings, shorter);
        lemma_run_without_cues(before, settings, shorter);
        if let Input::Bytes { data, running_time } = inputs.last() {
            let opened = last.fed(data, running_time).opened();
            if opened.header_seen {
                lemma_spliced_without_cues(opened, settings);
            }
        }
    }
}

/// A stream that starts with the signature has its file header passed on first.
proof fn lemma_run_opens_with_the_file_header(
    before: Timeline,
    settings: Settings,
    inputs: Seq<Input>,
)
    requires
        before.is_fresh(),
    ensures
        ({
            let end = run(before, settings, inputs);
            let pieces = run_pieces(before, settings, inputs);
            let bytes = input_bytes(inputs);
            end.header_seen ==> bytes.len() >= FILE_HEADER_LEN && (
            crate::timeline::has_signature(bytes) ==> pieces.len() > 0
                && pieces[0] == Piece::Passed(bytes.take(13)) && crate::laws::is_file_header(
                pieces[0],
            ))
        }),
    decreases inputs.len(),
{
    if inputs.len() > 0 {
        let shorter = inputs.drop_last();
        let last = run(before, settings, shorter);
        let sent = run_pieces(before, settings, shorter);
        lemma_run_opens_with_the_file_header(before, settings, shorter);
        law_stream_output_is_framed(before, settings, shorter, MessageName::OnCaption);
        match inputs.last() {
            Input::Cue(_) => {
                assert(sent + Seq::<Piece>::empty() =~= sent);
                assert(input_bytes(inputs) =~= input_bytes(shorter));
            },
            Input::Bytes { data, running_time } => {
                let more = last.received_pieces(settings, data, running_time);
                let fed = last.fed(data, running_time);
                let opened = fed.opened();
                crate::laws::lemma_spliced_keeps_origin(opened, settings);
                if last.header_seen {
                    assert(crate::timeline::has_signature(input_bytes(inputs))
                        == crate::timeline::has_signature(input_bytes(shorter)));
                    if sent.len() > 0 {
                        assert((sent + more)[0] == sent[0]);
                    }
                    assert(input_bytes(inputs).take(13) =~= input_bytes(shorter).take(13));
                } else {
                    law_stream_passes_through(before, settings, shorter);
                    assert(last.partial =~= input_bytes(shorter));
                    assert(sent + more =~= more);
                    assert(fed.partial =~= input_bytes(inputs));
                    if opened.header_seen && crate::timeline::has_signature(fed.partial) {
                        assert(more[0] == fed.opened_pieces()[0]);
                    }
                }
            },
        }
    }
}

/// The first thirteen bytes of a stream whose first three are `FLV` go out first
/// and by themselves, as soon as they are there, whatever the other ten are and
/// however the bytes are cut. And where whole tags follow, nothing is held at
/// the end.
pub proof fn law_any_file_header_goes_out_first(
    before: Timeline,
    settings: Settings,
    inputs: Seq<Input>,
)
    requires
        before.is_fresh(),
        input_bytes(inputs).len() >= 13,
        input_bytes(inputs)[0] == 0x46,
        input_bytes(inputs)[1] == 0x4c,
        input_bytes(inputs)[2] == 0x56,
    ensures
        run_pieces(before, settings, inputs).len() > 0,
        run_pieces(before, settings, inputs)[0] == Piece::Passed(input_bytes(inputs).take(13)),
        is_tags(input_bytes(inputs).skip(13)) ==> {
            &&& run(before, settings, inputs).partial.len() == 0
            &&& crate::laws::passed_bytes(run_pieces(before, settings, inputs)) == input_bytes(
                inputs,
            )
        },
{
    let bytes = input_bytes(inputs);
    let end = run(before, settings, inputs);
    lemma_run_settled(before, settings, inputs);
    law_stream_passes_through(before, settings, inputs);
    law_stream_output_is_framed(before, settings, inputs, MessageName::OnCaption);
    if !end.header_seen {
        assert(before.partial + bytes =~= bytes);
        assert(crate::laws::passed_bytes(run_pieces(before, settings, inputs)) + end.partial
            =~= end.partial);
    }
    lemma_run_opens_with_the_file_header(before, settings, inputs);
    if is_tags(bytes.skip(13)) {
        law_well_formed_stream_passes_whole(before, settings, inputs);
    }
}

/// In a whole output every tag of the injector's own is followed by its own size,
/// as four bytes, and belongs to stream zero.
pub proof fn law_own_tags_end_with_their_size(
    before: Timeline,
    settings: Settings,
    inputs: Seq<Input>,
    name: MessageName,
)
    ensures
        ({
            let pieces = run_pieces(before, settings, inputs) + run(
                before,
                settings,
                inputs,
            ).finished_pieces(settings.late_policy);
            let output = crate::timeline::encoded(pieces, name);
            forall|i: int|
                #![trigger output[i]]
                0 <= i < output.len() && !(pieces[i] is Passed) ==> {
                    let tag = output[i];
                    let end = tag.len() - 4;
                    &&& end >= 11
                    &&& tag[0] == 18
                    &&& tag[1] * 0x1_0000 + tag[2] * 0x100 + tag[3] == end - 11
                    &&& tag[8] == 0 && tag[9] == 0 && tag[10] == 0
                    &&& tag[end] * 0x100_0000 + tag[end + 1] * 0x1_0000 + tag[end + 2] * 0x100
                        + tag[end + 3] == end
                }
        }),
{
    let pieces = run_pieces(before, settings, inputs) + run(
        before,
        settings,
        inputs,
    ).finished_pieces(settings.late_policy);
    let output = crate::timeline::encoded(pieces, name);
    assert forall|i: int|
        #![trigger output[i]]
        0 <= i < output.len() && !(pieces[i] is Passed) implies {
        let tag = output[i];
        let end = tag.len() - 4;
        &&& end >= 11
        &&& tag[0] == 18
        &&& tag[1] * 0x1_0000 + tag[2] * 0x100 + tag[3] == end - 11
        &&& tag[8] == 0 && tag[9] == 0 && tag[10] == 0
        &&& tag[end] * 0x100_0000 + tag[end + 1] * 0x1_0000 + tag[end + 2] * 0x100 + tag[end + 3]
            == end
    } by {
        assert(output[i] == pieces[i].bytes(name));
        match pieces[i] {
            Piece::Passed(_) => {},
            Piece::Priming { timestamp_ms } => {
                crate::meaning::lemma_cue_tag_ends_with_its_size(
                    name,
                    timestamp_ms,
                    crate::timeline::priming_text(),
                );
            },
            Piece::Cue { timestamp_ms, text } => {
                crate::meaning::lemma_cue_tag_ends_with_its_size(name, timestamp_ms, text);
            },
        }
    }
}

/// A well-formed stream without cues, and with the declaration owed, gains exactly
/// one tag, whatever its buffers: the invisible cue, right behind the file
/// header and at the time of the first tag. All other bytes come out as they
/// went in, and the end of the stream adds nothing.
pub proof fn law_primed_stream_gains_one_tag(
    before: Timeline,
    settings: Settings,
    inputs: Seq<Input>,
    name: MessageName,
)
    requires
        before.is_fresh(),
        settings.prime,
        !before.primed,
        input_cues(inputs) == 0,
        is_flv_stream(input_bytes(inputs)),
        input_bytes(inputs).len() > FILE_HEADER_LEN,
    ensures
        ({
            let bytes = input_bytes(inputs);
            let header = bytes.take(FILE_HEADER_LEN as int);
            let tags = bytes.skip(FILE_HEADER_LEN as int);
            crate::timeline::encoded(
                run_pieces(before, settings, inputs),
                name,
            ).flatten() == header + crate::timeline::cue_tag(
                name,
                crate::flv::tag_header(tags).timestamp_ms as nat,
                crate::timeline::priming_text(),
            ) + tags
        }),
        run(before, settings, inputs).finished_pieces(settings.late_policy).len()
            == 0,
{
    let bytes = input_bytes(inputs);
    let pieces = run_pieces(before, settings, inputs);
    law_well_formed_stream_passes_whole(before, settings, inputs);
    lemma_run_without_cues(before, settings, inputs);
    lemma_run_opens_with_the_file_header(before, settings, inputs);
    lemma_run_declares_once(before, settings, inputs);
    law_stream_output_is_framed(before, settings, inputs, name);
    reveal(Seq::filter);
    let behind = pieces.drop_first();
    let rest = behind.drop_first();
    let header = pieces[0]->0;
    if pieces.len() == 1 {
        assert(crate::laws::passed_bytes(behind) =~= Seq::<u8>::empty());
        assert(crate::laws::passed_bytes(pieces) =~= header);
    }
    assert(pieces[1] is Priming);
    assert(pieces[pieces.len() - 1] == pieces.last());
    assert(pieces.len() > 2);
    assert forall|i: int| 0 <= i < rest.len() implies #[trigger] rest[i] is Passed by {
        assert(rest[i] == pieces[i + 2]);
    }
    assert(behind.first() == pieces[1]);
    assert(crate::laws::passed_bytes(behind) =~= crate::laws::passed_bytes(rest));
    assert(crate::laws::passed_bytes(pieces) =~= header + crate::laws::passed_bytes(rest));
    assert(bytes.take(FILE_HEADER_LEN as int) =~= header);
    assert(bytes.skip(FILE_HEADER_LEN as int) =~= crate::laws::passed_bytes(rest));
    crate::laws::lemma_only_passed(rest, name);
    lemma_flattened_from_the_front(pieces, name);
    lemma_flattened_from_the_front(behind, name);
    lemma_first_tag_is_read(rest, name);
    assert(crate::laws::timestamp_of(pieces[1]) == crate::laws::timestamp_of(pieces[2]));
    assert(rest[0] == pieces[2]);
    let declared = pieces[1].bytes(name);
    assert(header + (declared + crate::laws::passed_bytes(rest)) =~= header + declared
        + crate::laws::passed_bytes(rest));
}

proof fn lemma_flattened_from_the_front(pieces: Seq<Piece>, name: MessageName)
    requires
        pieces.len() > 0,
    ensures
        crate::timeline::encoded(pieces, name).flatten() == pieces.first().bytes(name)
            + crate::timeline::encoded(pieces.drop_first(), name).flatten(),
{
    assert(crate::timeline::encoded(pieces, name).drop_first() =~= crate::timeline::encoded(
        pieces.drop_first(),
        name,
    ));
}

/// The header of the first tag passed on is the header of all bytes passed on.
proof fn lemma_first_tag_is_read(pieces: Seq<Piece>, name: MessageName)
    requires
        pieces.len() > 0,
        pieces[0] is Passed,
        crate::laws::is_framed(pieces[0], name),
    ensures
        crate::flv::tag_header(crate::laws::passed_bytes(pieces)).timestamp_ms
            == crate::laws::timestamp_of(pieces[0]),
{
    let tag = pieces[0]->0;
    let more = crate::laws::passed_bytes(pieces.drop_first());
    assert(crate::laws::passed_bytes(pieces) == tag + more);
    assert(forall|i: int| 0 <= i < tag.len() ==> (tag + more)[i] == tag[i]);
}

/// The cues among `inputs`, in order of arrival.
pub open spec fn arrivals(inputs: Seq<Input>) -> Seq<QueuedCue>
    decreases inputs.len(),
{
    if inputs.len() == 0 {
        Seq::empty()
    } else {
        match inputs.last() {
            Input::Cue(cue) => arrivals(inputs.drop_last()).push(cue),
            Input::Bytes { .. } => arrivals(inputs.drop_last()),
        }
    }
}

proof fn lemma_spliced_queues_nothing(before: Timeline, settings: Settings, cue: QueuedCue)
    requires
        before.spliced(settings).pending.contains(cue),
    ensures
        before.pending.contains(cue),
    decreases before.partial.len(),
{
    if crate::flv::starts_with_tag(before.partial) {
        let next = before.advanced(settings);
        lemma_spliced_queues_nothing(next, settings, cue);
        if let Some(origin) = before.origin {
            let waits = crate::timeline::waiting(origin, before.arrived(settings).position_ms);
            crate::laws::lemma_filtered_cue_was_there(
                before.pending,
                waits,
                next.pending.index_of(cue),
            );
        }
    }
}

proof fn lemma_queued_adds_one_cue(before: Timeline, added: QueuedCue, cue: QueuedCue)
    requires
        before.queued(added).pending.contains(cue),
    ensures
        cue == added || before.pending.contains(cue),
{
    let first = crate::timeline::not_after(added.running_time);
    let rest = crate::timeline::after(added.running_time);
    let front = before.pending.filter(first);
    let at = before.queued(added).pending.index_of(cue);
    if at < front.len() {
        crate::laws::lemma_filtered_cue_was_there(before.pending, first, at);
    } else if at > front.len() {
        crate::laws::lemma_filtered_cue_was_there(before.pending, rest, at - front.len() - 1);
    }
}

/// What is queued has come in.
proof fn lemma_run_queues_arrivals(
    before: Timeline,
    settings: Settings,
    inputs: Seq<Input>,
    cue: QueuedCue,
)
    requires
        before.is_fresh(),
        run(before, settings, inputs).pending.contains(cue),
    ensures
        arrivals(inputs).contains(cue),
    decreases inputs.len(),
{
    if inputs.len() > 0 {
        let shorter = inputs.drop_last();
        let last = run(before, settings, shorter);
        match inputs.last() {
            Input::Cue(added) => {
                lemma_queued_adds_one_cue(last, added, cue);
                if cue == added {
                    assert(arrivals(inputs)[arrivals(shorter).len() as int] == cue);
                } else {
                    lemma_run_queues_arrivals(before, settings, shorter, cue);
                    let i = arrivals(shorter).index_of(cue);
                    assert(arrivals(inputs)[i] == cue);
                }
            },
            Input::Bytes { data, running_time } => {
                let opened = last.fed(data, running_time).opened();
                if opened.header_seen {
                    lemma_spliced_queues_nothing(opened, settings, cue);
                }
                lemma_run_queues_arrivals(before, settings, shorter, cue);
            },
        }
    }
}

/// A piece that comes from some cues comes from more of them.
proof fn lemma_comes_from_more(
    piece: Piece,
    cues: Seq<QueuedCue>,
    more: Seq<QueuedCue>,
    origin: nat,
    policy: LatePolicy,
)
    requires
        crate::laws::comes_from(piece, cues, origin, policy),
        forall|cue: QueuedCue| #[trigger] cues.contains(cue) ==> more.contains(cue),
    ensures
        crate::laws::comes_from(piece, more, origin, policy),
{
    if piece is Cue {
        let k = choose|k: int|
            #![trigger cues[k]]
            0 <= k < cues.len() && cues[k].text == piece->text && crate::timeline::cue_ms(
                origin,
                cues[k].running_time,
            ) <= crate::laws::timestamp_of(piece) && (policy is Drop ==> crate::timeline::cue_ms(
                origin,
                cues[k].running_time,
            ) == crate::laws::timestamp_of(piece));
        assert(cues.contains(cues[k]));
        let at = more.index_of(cues[k]);
        assert(more[at] == cues[k]);
    }
}

/// Whether `piece`, where it is a cue, carries one of `cues`, and the clock of
/// `timeline` is known.
pub open spec fn is_an_arrival(
    piece: Piece,
    timeline: Timeline,
    cues: Seq<QueuedCue>,
    policy: LatePolicy,
) -> bool {
    piece is Cue ==> timeline.origin is Some && crate::laws::comes_from(
        piece,
        cues,
        timeline.origin->0,
        policy,
    )
}

proof fn lemma_run_invents_no_cue(before: Timeline, settings: Settings, inputs: Seq<Input>)
    requires
        before.is_fresh(),
    ensures
        ({
            let end = run(before, settings, inputs);
            let pieces = run_pieces(before, settings, inputs);
            forall|i: int|
                0 <= i < pieces.len() ==> is_an_arrival(
                    #[trigger] pieces[i],
                    end,
                    arrivals(inputs),
                    settings.late_policy,
                )
        }),
    decreases inputs.len(),
{
    if inputs.len() > 0 {
        let policy = settings.late_policy;
        let shorter = inputs.drop_last();
        let last = run(before, settings, shorter);
        let end = run(before, settings, inputs);
        let sent = run_pieces(before, settings, shorter);
        let pieces = run_pieces(before, settings, inputs);
        lemma_run_invents_no_cue(before, settings, shorter);
        assert forall|cue: QueuedCue| #[trigger] arrivals(shorter).contains(cue) implies arrivals(
            inputs,
        ).contains(cue) by {
            let i = arrivals(shorter).index_of(cue);
            assert(arrivals(inputs)[i] == cue);
        }
        assert forall|cue: QueuedCue| #[trigger] last.pending.contains(cue) implies arrivals(
            inputs,
        ).contains(cue) by {
            lemma_run_queues_arrivals(before, settings, shorter, cue);
        }
        if let Input::Bytes { data, running_time } = inputs.last() {
            crate::laws::law_no_cue_is_invented(last, settings, data, running_time);
            crate::laws::lemma_spliced_keeps_origin(
                last.fed(data, running_time).opened(),
                settings,
            );
            assert(end.origin == last.fed(data, running_time).origin);
        }
        assert forall|i: int| 0 <= i < pieces.len() implies is_an_arrival(
            #[trigger] pieces[i],
            end,
            arrivals(inputs),
            policy,
        ) by {
            if pieces[i] is Cue {
                if i < sent.len() {
                    assert(pieces[i] == sent[i]);
                    assert(is_an_arrival(sent[i], last, arrivals(shorter), policy));
                    lemma_comes_from_more(
                        sent[i],
                        arrivals(shorter),
                        arrivals(inputs),
                        last.origin->0,
                        policy,
                    );
                } else if let Input::Bytes { data, running_time } = inputs.last() {
                    let more = last.received_pieces(settings, data, running_time);
                    assert(pieces[i] == more[i - sent.len()]);
                    lemma_comes_from_more(
                        pieces[i],
                        last.pending,
                        arrivals(inputs),
                        end.origin->0,
                        policy,
                    );
                }
            }
        }
    }
}

/// Over a whole stream and its end no cue is invented: each that goes out came in
/// with this stream. It is shown no earlier than its own time, and exactly then
/// where late cues are discarded.
pub proof fn law_stream_invents_no_cue(before: Timeline, settings: Settings, inputs: Seq<Input>)
    requires
        before.is_fresh(),
    ensures
        ({
            let end = run(before, settings, inputs);
            let pieces = run_pieces(before, settings, inputs) + end.finished_pieces(
                settings.late_policy,
            );
            forall|i: int|
                0 <= i < pieces.len() ==> is_an_arrival(
                    #[trigger] pieces[i],
                    end,
                    arrivals(inputs),
                    settings.late_policy,
                )
        }),
{
    let policy = settings.late_policy;
    let end = run(before, settings, inputs);
    let sent = run_pieces(before, settings, inputs);
    let rest = end.finished_pieces(policy);
    let pieces = sent + rest;
    lemma_run_invents_no_cue(before, settings, inputs);
    crate::laws::law_no_cue_is_invented(end, settings, Seq::empty(), None);
    assert forall|cue: QueuedCue| #[trigger] end.pending.contains(cue) implies arrivals(
        inputs,
    ).contains(cue) by {
        lemma_run_queues_arrivals(before, settings, inputs, cue);
    }
    assert forall|i: int| 0 <= i < pieces.len() implies is_an_arrival(
        #[trigger] pieces[i],
        end,
        arrivals(inputs),
        policy,
    ) by {
        if i < sent.len() {
            assert(pieces[i] == sent[i]);
        } else {
            assert(pieces[i] == rest[i - sent.len()]);
            lemma_comes_from_more(
                pieces[i],
                end.pending,
                arrivals(inputs),
                end.origin->0,
                policy,
            );
        }
    }
}

/// A flush starts a stream of its own. Whatever was queued before it, only cues
/// that come in behind it go out; and where late cues are moved and not
/// discarded, all of those have gone out by the end of a stream that has started
/// and whose clock is known.
pub proof fn law_stream_after_a_flush(before: Timeline, settings: Settings, inputs: Seq<Input>)
    ensures
        before.flushed().is_fresh(),
        Timeline::initial().is_fresh(),
        ({
            let end = run(before.flushed(), settings, inputs);
            let pieces = run_pieces(before.flushed(), settings, inputs) + end.finished_pieces(
                settings.late_policy,
            );
            &&& forall|i: int|
                0 <= i < pieces.len() ==> is_an_arrival(
                    #[trigger] pieces[i],
                    end,
                    arrivals(inputs),
                    settings.late_policy,
                )
            &&& settings.late_policy is Clamp && end.origin is Some && end.header_seen ==> {
                &&& crate::laws::cue_count(pieces) == input_cues(inputs)
                &&& forall|cue: QueuedCue| #[trigger]
                    inputs.contains(Input::Cue(cue)) ==> crate::laws::is_written(
                        pieces,
                        end.origin->0,
                        cue,
                    )
            }
        }),
{
    let end = run(before.flushed(), settings, inputs);
    law_stream_invents_no_cue(before.flushed(), settings, inputs);
    if settings.late_policy is Clamp && end.origin is Some && end.header_seen {
        law_every_cue_is_written_by_the_end(before.flushed(), settings, inputs);
    }
}

/// Cues at `running_time`.
pub open spec fn at_time(running_time: nat) -> spec_fn(QueuedCue) -> bool {
    |cue: QueuedCue| cue.running_time == running_time
}

/// Of the cues at one running time, a drain takes all or none.
proof fn lemma_spliced_takes_all_at_a_time_or_none(
    before: Timeline,
    settings: Settings,
    running_time: nat,
)
    ensures
        ({
            let left = before.spliced(settings).pending.filter(at_time(running_time));
            left == before.pending.filter(at_time(running_time)) || left.len() == 0
        }),
    decreases before.partial.len(),
{
    if crate::flv::starts_with_tag(before.partial) {
        let next = before.advanced(settings);
        lemma_spliced_takes_all_at_a_time_or_none(next, settings, running_time);
        if let Some(origin) = before.origin {
            let waits = crate::timeline::waiting(origin, before.arrived(settings).position_ms);
            let same = at_time(running_time);
            if crate::timeline::cue_ms(origin, running_time) > before.arrived(
                settings,
            ).position_ms {
                crate::drains::lemma_filter_twice(before.pending, waits, same, same);
            } else {
                crate::drains::lemma_filter_none(before.pending, waits, same);
            }
        }
    }
}

/// A cue taken in goes behind those of its own running time, and no others move.
proof fn lemma_queued_at_a_time(before: Timeline, added: QueuedCue, running_time: nat)
    ensures
        before.queued(added).pending.filter(at_time(running_time)) == if added.running_time
            == running_time {
            before.pending.filter(at_time(running_time)).push(added)
        } else {
            before.pending.filter(at_time(running_time))
        },
{
    let same = at_time(running_time);
    let first = crate::timeline::not_after(added.running_time);
    let rest = crate::timeline::after(added.running_time);
    let front = before.pending.filter(first);
    let back = before.pending.filter(rest);
    Seq::filter_distributes_over_add(front.push(added), back, same);
    front.lemma_filter_push(added, same);
    if running_time <= added.running_time {
        crate::drains::lemma_filter_twice(before.pending, first, same, same);
        crate::drains::lemma_filter_none(before.pending, rest, same);
    } else {
        crate::drains::lemma_filter_none(before.pending, first, same);
        crate::drains::lemma_filter_twice(before.pending, rest, same, same);
    }
    assert(before.queued(added).pending.filter(same) =~= if added.running_time == running_time {
        before.pending.filter(same).push(added)
    } else {
        before.pending.filter(same)
    });
}

/// At every moment of a stream the queue is in order of running time, and the
/// cues of one running time wait in order of arrival: they are the last of
/// those that have come in.
pub proof fn law_cues_wait_in_order_of_arrival(
    before: Timeline,
    settings: Settings,
    inputs: Seq<Input>,
    running_time: nat,
)
    requires
        before.is_fresh(),
    ensures
        run(before, settings, inputs).in_order(),
        run(before, settings, inputs).pending.filter(at_time(running_time)).is_suffix_of(
            arrivals(inputs).filter(at_time(running_time)),
        ),
    decreases inputs.len(),
{
    let same = at_time(running_time);
    let end = run(before, settings, inputs);
    lemma_run_settled(before, settings, inputs);
    if inputs.len() == 0 {
        assert(before.pending =~= arrivals(inputs));
        assert(before.pending.filter(same).is_suffix_of(before.pending.filter(same)));
    } else {
        let shorter = inputs.drop_last();
        let last = run(before, settings, shorter);
        let waiting = last.pending.filter(same);
        let arrived = arrivals(shorter).filter(same);
        law_cues_wait_in_order_of_arrival(before, settings, shorter, running_time);
        match inputs.last() {
            Input::Cue(added) => {
                lemma_queued_at_a_time(last, added, running_time);
                arrivals(shorter).lemma_filter_push(added, same);
                if same(added) {
                    let from = arrived.len() - waiting.len();
                    assert(waiting.push(added) =~= arrived.push(added).subrange(
                        from,
                        arrived.push(added).len() as int,
                    )) by {
                        assert(waiting =~= arrived.subrange(from, arrived.len() as int));
                    }
                }
            },
            Input::Bytes { data, running_time: time } => {
                let opened = last.fed(data, time).opened();
                if opened.header_seen {
                    lemma_spliced_takes_all_at_a_time_or_none(opened, settings, running_time);
                }
                let left = end.pending.filter(same);
                if left.len() == 0 {
                    assert(left =~= arrived.subrange(
                        arrived.len() as int,
                        arrived.len() as int,
                    ));
                }
            },
        }
    }
}

} // verus!
