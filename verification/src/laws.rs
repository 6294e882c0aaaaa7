//! What the injector promises of every buffer and every cue, on top of what each
//! operation does by itself.

use vstd::prelude::*;

use crate::amf::MessageName;
use crate::flv::{
    FILE_HEADER_LEN, MAXIMUM_TIMESTAMP_MS, TAG_HEADER_LEN, TAG_TYPE_SCRIPT_DATA,
};
use crate::settings::{LatePolicy, Settings};
use crate::timeline::{Piece, QueuedCue, Timeline};

verus! {

/// The muxer's bytes among `pieces`, one behind another.
pub open spec fn passed_bytes(pieces: Seq<Piece>) -> Seq<u8>
    decreases pieces.len(),
{
    if pieces.len() == 0 {
        Seq::empty()
    } else {
        (match pieces.first() {
            Piece::Passed(bytes) => bytes,
            _ => Seq::empty(),
        }) + passed_bytes(pieces.drop_first())
    }
}

pub(crate) proof fn lemma_passed_bytes_concat(first: Seq<Piece>, second: Seq<Piece>)
    ensures
        passed_bytes(first + second) == passed_bytes(first) + passed_bytes(second),
    decreases first.len(),
{
    if first.len() == 0 {
        assert(first + second =~= second);
        assert(passed_bytes(first) + passed_bytes(second) =~= passed_bytes(second));
    } else {
        lemma_passed_bytes_concat(first.drop_first(), second);
        assert((first + second).drop_first() =~= first.drop_first() + second);
        assert((first + second).first() == first.first());
        assert(passed_bytes(first + second) =~= passed_bytes(first) + passed_bytes(second));
    }
}

proof fn lemma_nothing_passed(pieces: Seq<Piece>)
    requires
        forall|i: int| 0 <= i < pieces.len() ==> !(#[trigger] pieces[i] is Passed),
    ensures
        passed_bytes(pieces) == Seq::<u8>::empty(),
    decreases pieces.len(),
{
    if pieces.len() > 0 {
        lemma_nothing_passed(pieces.drop_first());
        assert(!(pieces[0] is Passed));
        assert(passed_bytes(pieces) =~= Seq::<u8>::empty());
    }
}

proof fn lemma_one_passed(bytes: Seq<u8>)
    ensures
        passed_bytes(seq![Piece::Passed(bytes)]) == bytes,
{
    let pieces = seq![Piece::Passed(bytes)];
    assert(pieces.drop_first() =~= Seq::<Piece>::empty());
    assert(passed_bytes(pieces.drop_first()) =~= Seq::<u8>::empty());
    assert(passed_bytes(pieces) =~= bytes);
}

/// The cues that go out before a tag add nothing to the muxer's bytes.
proof fn lemma_advanced_passes_the_tag(before: Timeline, settings: Settings)
    ensures
        passed_bytes(before.advanced_pieces(settings)) == before.partial.take(
            crate::flv::tag_header(before.partial).tag_len() as int,
        ),
{
    let priming = before.priming_pieces(settings);
    let cues = before.arrived(settings).drained_pieces(settings.late_policy);
    let tag = before.partial.take(crate::flv::tag_header(before.partial).tag_len() as int);
    lemma_nothing_passed(priming + cues);
    lemma_one_passed(tag);
    lemma_passed_bytes_concat(priming + cues, seq![Piece::Passed(tag)]);
    assert(passed_bytes(before.advanced_pieces(settings)) =~= tag);
}

proof fn lemma_spliced_passes_bytes(before: Timeline, settings: Settings)
    ensures
        passed_bytes(before.spliced_pieces(settings)) + before.spliced(settings).partial
            == before.partial,
    decreases before.partial.len(),
{
    if crate::flv::starts_with_tag(before.partial) {
        let next = before.advanced(settings);
        lemma_spliced_passes_bytes(next, settings);
        lemma_advanced_passes_the_tag(before, settings);
        lemma_passed_bytes_concat(
            before.advanced_pieces(settings),
            next.spliced_pieces(settings),
        );
        let total = crate::flv::tag_header(before.partial).tag_len() as int;
        assert(before.partial =~= before.partial.take(total) + before.partial.skip(total));
        assert(passed_bytes(before.spliced_pieces(settings)) + before.spliced(settings).partial
            =~= before.partial.take(total) + (passed_bytes(next.spliced_pieces(settings))
            + next.spliced(settings).partial));
    } else {
        assert(passed_bytes(before.spliced_pieces(settings)) + before.partial =~= before.partial);
    }
}

/// The muxer's bytes pass through unchanged, in order and none twice: those
/// passed on, followed by those still held, are those held before, followed by
/// those received.
pub proof fn law_bytes_pass_through(
    before: Timeline,
    settings: Settings,
    data: Seq<u8>,
    running_time: Option<nat>,
)
    ensures
        passed_bytes(before.received_pieces(settings, data, running_time)) + before.received(
            settings,
            data,
            running_time,
        ).partial == before.partial + data,
{
    let fed = before.fed(data, running_time);
    let opened = fed.opened();
    if opened.header_seen {
        lemma_spliced_passes_bytes(opened, settings);
        lemma_passed_bytes_concat(fed.opened_pieces(), opened.spliced_pieces(settings));
        if fed.opened_pieces().len() > 0 {
            lemma_one_passed(fed.partial.take(FILE_HEADER_LEN as int));
            assert(fed.partial =~= fed.partial.take(FILE_HEADER_LEN as int) + opened.partial);
        }
        assert(passed_bytes(before.received_pieces(settings, data, running_time))
            + before.received(settings, data, running_time).partial =~= passed_bytes(
            fed.opened_pieces(),
        ) + (passed_bytes(opened.spliced_pieces(settings)) + opened.spliced(settings).partial));
        assert(passed_bytes(fed.opened_pieces()) + opened.partial =~= fed.partial);
    } else {
        assert(passed_bytes(Seq::<Piece>::empty()) + fed.partial =~= fed.partial);
    }
}

pub(crate) proof fn lemma_only_passed(pieces: Seq<Piece>, name: MessageName)
    requires
        forall|i: int| 0 <= i < pieces.len() ==> #[trigger] pieces[i] is Passed,
    ensures
        crate::timeline::encoded(pieces, name).flatten() == passed_bytes(pieces),
    decreases pieces.len(),
{
    let buffers = crate::timeline::encoded(pieces, name);
    if pieces.len() > 0 {
        lemma_only_passed(pieces.drop_first(), name);
        assert(buffers.drop_first() =~= crate::timeline::encoded(pieces.drop_first(), name));
        assert(pieces[0] is Passed);
    }
}

pub(crate) proof fn lemma_spliced_in_silence(before: Timeline, settings: Settings)
    requires
        before.pending.len() == 0,
        before.primed || !settings.prime,
    ensures
        before.spliced(settings).pending.len() == 0,
        before.spliced(settings).primed == before.primed,
        forall|i: int|
            0 <= i < before.spliced_pieces(settings).len() ==> #[trigger] before.spliced_pieces(
                settings,
            )[i] is Passed,
    decreases before.partial.len(),
{
    if crate::flv::starts_with_tag(before.partial) {
        reveal(Seq::filter);
        lemma_spliced_in_silence(before.advanced(settings), settings);
    }
}

/// Without cues, and with no declaration owed, the stream is byte for byte the
/// muxer's: silence costs nothing. It stays that way until a cue comes.
pub proof fn law_silence_costs_nothing(
    before: Timeline,
    settings: Settings,
    data: Seq<u8>,
    running_time: Option<nat>,
    name: MessageName,
)
    requires
        before.pending.len() == 0,
        before.primed || !settings.prime,
    ensures
        crate::timeline::encoded(
            before.received_pieces(settings, data, running_time),
            name,
        ).flatten() + before.received(settings, data, running_time).partial == before.partial
            + data,
        before.received(settings, data, running_time).pending.len() == 0,
        before.received(settings, data, running_time).primed == before.primed,
        forall|policy: LatePolicy|
            (#[trigger] before.received(settings, data, running_time).finished_pieces(
                policy,
            )).len() == 0,
{
    let fed = before.fed(data, running_time);
    let opened = fed.opened();
    law_bytes_pass_through(before, settings, data, running_time);
    if opened.header_seen {
        lemma_spliced_in_silence(opened, settings);
    }
    lemma_only_passed(before.received_pieces(settings, data, running_time), name);
    reveal(Seq::filter);
}

/// `before` with more bytes held behind those it holds.
spec fn extended(before: Timeline, data: Seq<u8>) -> Timeline {
    Timeline { partial: before.partial + data, ..before }
}

/// A tag that is there in full is the same tag with more bytes behind it.
pub(crate) proof fn lemma_tag_is_self_delimiting(bytes: Seq<u8>, more: Seq<u8>)
    requires
        crate::flv::starts_with_tag(bytes),
    ensures
        crate::flv::starts_with_tag(bytes + more),
        crate::flv::tag_header(bytes + more) == crate::flv::tag_header(bytes),
{
    assert(forall|i: int| 0 <= i < bytes.len() ==> (bytes + more)[i] == bytes[i]);
}

proof fn lemma_spliced_extends(before: Timeline, settings: Settings, data: Seq<u8>)
    ensures
        extended(before, data).spliced(settings) == extended(
            before.spliced(settings),
            data,
        ).spliced(settings),
        extended(before, data).spliced_pieces(settings) == before.spliced_pieces(settings)
            + extended(before.spliced(settings), data).spliced_pieces(settings),
    decreases before.partial.len(),
{
    let longer = extended(before, data);
    if crate::flv::starts_with_tag(before.partial) {
        lemma_tag_is_self_delimiting(before.partial, data);
        let total = crate::flv::tag_header(before.partial).tag_len() as int;
        assert(longer.partial.take(total) =~= before.partial.take(total));
        assert(longer.partial.skip(total) =~= before.partial.skip(total) + data);
        assert(longer.arrived(settings).drained(settings.late_policy).pending
            == before.arrived(settings).drained(settings.late_policy).pending);
        assert(longer.advanced(settings) == extended(before.advanced(settings), data));
        assert(longer.advanced_pieces(settings) == before.advanced_pieces(settings));
        lemma_spliced_extends(before.advanced(settings), settings, data);
        assert(longer.spliced_pieces(settings) =~= before.spliced_pieces(settings) + extended(
            before.spliced(settings),
            data,
        ).spliced_pieces(settings));
    } else {
        assert(longer.spliced_pieces(settings) =~= Seq::<Piece>::empty() + longer.spliced_pieces(
            settings,
        ));
    }
}

/// Where the muxer's bytes are cut into buffers makes no difference: two
/// buffers leave the same state, and the same output in the same order, as
/// their bytes in one. The second buffer must not be the one that fixes the
/// origin, since one buffer has one running time.
pub proof fn law_buffer_boundaries_do_not_matter(
    before: Timeline,
    settings: Settings,
    first: Seq<u8>,
    second: Seq<u8>,
    first_time: Option<nat>,
    second_time: Option<nat>,
)
    requires
        before.origin is Some || first_time is Some || second_time is None,
    ensures
        before.received(settings, first, first_time).received(settings, second, second_time)
            == before.received(settings, first + second, first_time),
        before.received_pieces(settings, first, first_time) + before.received(
            settings,
            first,
            first_time,
        ).received_pieces(settings, second, second_time) == before.received_pieces(
            settings,
            first + second,
            first_time,
        ),
{
    let fed = before.fed(first, first_time);
    let whole = before.fed(first + second, first_time);
    assert(whole.partial =~= fed.partial + second);
    assert(whole == extended(fed, second));
    let middle = before.received(settings, first, first_time);
    let opened = fed.opened();
    assert(middle.origin == fed.origin) by {
        lemma_spliced_keeps_origin(opened, settings);
    }
    assert(middle.fed(second, second_time) == extended(middle, second));
    if opened.header_seen {
        if !fed.header_seen && crate::timeline::has_signature(fed.partial) {
            assert(whole.partial.skip(FILE_HEADER_LEN as int) =~= fed.partial.skip(
                FILE_HEADER_LEN as int,
            ) + second);
            assert(whole.partial.take(FILE_HEADER_LEN as int) =~= fed.partial.take(
                FILE_HEADER_LEN as int,
            ));
        }
        assert(whole.opened() == extended(opened, second));
        assert(whole.opened_pieces() =~= fed.opened_pieces());
        lemma_spliced_extends(opened, settings, second);
        lemma_spliced_keeps_origin(opened, settings);
        assert(middle.header_seen);
        assert(extended(middle, second).opened() == extended(middle, second));
        assert(extended(middle, second).opened_pieces() =~= Seq::<Piece>::empty());
        assert(before.received_pieces(settings, first, first_time) + middle.received_pieces(
            settings,
            second,
            second_time,
        ) =~= before.received_pieces(settings, first + second, first_time));
    } else {
        assert(middle == fed);
        assert(Seq::<Piece>::empty() + middle.received_pieces(settings, second, second_time)
            =~= middle.received_pieces(settings, second, second_time));
    }
}

pub(crate) proof fn lemma_spliced_keeps_origin(before: Timeline, settings: Settings)
    ensures
        before.spliced(settings).origin == before.origin,
        before.spliced(settings).header_seen == before.header_seen,
    decreases before.partial.len(),
{
    if crate::flv::starts_with_tag(before.partial) {
        lemma_spliced_keeps_origin(before.advanced(settings), settings);
    }
}

/// A cue reads back from the tag it went out in: the tag carries the cue's
/// timestamp, and a reader of the body finds the message name and the text.
pub proof fn law_cue_reads_back(name: MessageName, timestamp_ms: u32, text: Seq<char>)
    ensures
        ({
            let tag = crate::timeline::cue_tag(name, timestamp_ms as nat, text);
            let header = crate::flv::tag_header(tag);
            let body = tag.subrange(TAG_HEADER_LEN as int, TAG_HEADER_LEN + header.body_size);
            &&& crate::flv::is_tag(tag)
            &&& header.tag_type == TAG_TYPE_SCRIPT_DATA
            &&& header.timestamp_ms == timestamp_ms
            &&& crate::amf::message_of(body) == Some(vstd::utf8::encode_utf8(name.text()))
            &&& crate::amf::text_of(body) == Some(crate::amf::carried_text(text))
        }),
{
    let body = crate::amf::script_data_body_bytes(name, text);
    crate::amf::lemma_body_fits(name, text);
    crate::flv::law_script_data_tag_reads_back(timestamp_ms, body);
    crate::amf::law_body_reads_back(name, text);
}

/// The priming cue carries a zero width space, which is three bytes and not the
/// empty string.
pub proof fn law_priming_text_is_not_empty()
    ensures
        crate::amf::carried_text(crate::timeline::priming_text()) == seq![0xe2u8, 0x80, 0x8b],
{
    let text = crate::timeline::priming_text();
    reveal_strlit("\u{200b}");
    assert(text =~= seq!['\u{200b}']);
    assert(text.drop_first() =~= Seq::<char>::empty());
    let scalar = text[0] as u32;
    assert(scalar == 0x200b);
    assert(0xE0u8 | ((0x200bu32 >> 12) & 0x0F) as u8 == 0xe2u8) by (bit_vector);
    assert(0x80u8 | ((0x200bu32 >> 6) & 0x3F) as u8 == 0x80u8) by (bit_vector);
    assert(0x80u8 | (0x200bu32 & 0x3F) as u8 == 0x8bu8) by (bit_vector);
    assert(vstd::utf8::encode_utf8(text.drop_first()) =~= Seq::<u8>::empty());
    assert(vstd::utf8::encode_utf8(text) =~= seq![0xe2u8, 0x80, 0x8b]);
}

/// Whether `piece` is the file header.
pub open spec fn is_file_header(piece: Piece) -> bool {
    match piece {
        Piece::Passed(bytes) => bytes.len() == 13 && bytes[0] == 0x46 && bytes[1] == 0x4c
            && bytes[2] == 0x56,
        _ => false,
    }
}

/// The timestamp of a tag.
pub open spec fn timestamp_of(piece: Piece) -> nat {
    match piece {
        Piece::Passed(bytes) => crate::flv::tag_header(bytes).timestamp_ms as nat,
        Piece::Priming { timestamp_ms } => timestamp_ms,
        Piece::Cue { timestamp_ms, .. } => timestamp_ms,
    }
}

/// Whether `piece` is one whole tag whose header carries its timestamp.
pub open spec fn is_framed(piece: Piece, name: MessageName) -> bool {
    &&& crate::flv::is_tag(piece.bytes(name))
    &&& crate::flv::tag_header(piece.bytes(name)).timestamp_ms == timestamp_of(piece)
}

proof fn lemma_own_piece_is_framed(piece: Piece, name: MessageName)
    requires
        !(piece is Passed),
        timestamp_of(piece) <= MAXIMUM_TIMESTAMP_MS,
    ensures
        is_framed(piece, name),
{
    match piece {
        Piece::Passed(_) => {},
        Piece::Priming { timestamp_ms } => {
            law_cue_reads_back(name, timestamp_ms as u32, crate::timeline::priming_text());
        },
        Piece::Cue { timestamp_ms, text } => {
            law_cue_reads_back(name, timestamp_ms as u32, text);
        },
    }
}

/// Everything that goes out with a tag is framed, carries the timestamp of the
/// tag, and comes before it.
pub(crate) proof fn lemma_advanced_is_framed(before: Timeline, settings: Settings, name: MessageName)
    requires
        crate::flv::starts_with_tag(before.partial),
    ensures
        ({
            let pieces = before.advanced_pieces(settings);
            let timestamp_ms = crate::flv::tag_header(before.partial).timestamp_ms as nat;
            &&& pieces.len() > 0
            &&& pieces.last() is Passed
            &&& forall|i: int|
                #![trigger pieces[i]]
                0 <= i < pieces.len() ==> {
                    &&& is_framed(pieces[i], name)
                    &&& timestamp_of(pieces[i]) == timestamp_ms
                    &&& i + 1 < pieces.len() ==> !(pieces[i] is Passed)
                }
        }),
{
    let pieces = before.advanced_pieces(settings);
    let header = crate::flv::tag_header(before.partial);
    let tag = before.partial.take(header.tag_len() as int);
    assert(crate::flv::tag_header(tag) == header);
    assert(is_framed(Piece::Passed(tag), name));
    assert forall|i: int| #![trigger pieces[i]] 0 <= i < pieces.len() implies {
        &&& is_framed(pieces[i], name)
        &&& timestamp_of(pieces[i]) == header.timestamp_ms
        &&& i + 1 < pieces.len() ==> !(pieces[i] is Passed)
    } by {
        if i + 1 < pieces.len() {
            lemma_own_piece_is_framed(pieces[i], name);
        }
    }
}

/// Whether every tag of the injector's own among `pieces` has the timestamp of
/// the tag behind it, and one of the muxer's comes last.
pub open spec fn leads_to_tags(pieces: Seq<Piece>) -> bool {
    &&& pieces.len() > 0 ==> pieces.last() is Passed
    &&& forall|i: int, j: int|
        #![trigger pieces[i], pieces[j]]
        0 <= i < j < pieces.len() && j == i + 1 && !(pieces[i] is Passed) ==> timestamp_of(
            pieces[i],
        ) == timestamp_of(pieces[j])
}

pub(crate) proof fn lemma_leads_to_tags_concat(first: Seq<Piece>, second: Seq<Piece>)
    requires
        leads_to_tags(first),
        leads_to_tags(second),
    ensures
        leads_to_tags(first + second),
{
    let pieces = first + second;
    assert forall|i: int, j: int|
        #![trigger pieces[i], pieces[j]]
        0 <= i < j < pieces.len() && j == i + 1 && !(pieces[i] is Passed) implies timestamp_of(
        pieces[i],
    ) == timestamp_of(pieces[j]) by {
        if j < first.len() {
            assert(timestamp_of(first[i]) == timestamp_of(first[j]));
        } else if i >= first.len() {
            assert(timestamp_of(second[i - first.len()]) == timestamp_of(
                second[j - first.len()],
            ));
        } else {
            assert(pieces[i] == first.last());
        }
    }
    if second.len() > 0 {
        assert(pieces.last() == second.last());
    } else if first.len() > 0 {
        assert(pieces.last() == first.last());
    }
}

pub(crate) proof fn lemma_spliced_is_framed(before: Timeline, settings: Settings, name: MessageName)
    ensures
        ({
            let pieces = before.spliced_pieces(settings);
            &&& leads_to_tags(pieces)
            &&& forall|i: int| 0 <= i < pieces.len() ==> is_framed(#[trigger] pieces[i], name)
        }),
    decreases before.partial.len(),
{
    if crate::flv::starts_with_tag(before.partial) {
        let next = before.advanced(settings);
        lemma_advanced_is_framed(before, settings, name);
        lemma_spliced_is_framed(next, settings, name);
        lemma_leads_to_tags_concat(
            before.advanced_pieces(settings),
            next.spliced_pieces(settings),
        );
    }
}

/// The output is never torn: behind the file header every buffer is one whole
/// tag. A tag of the injector's own carries the timestamp of the tag behind it,
/// so a cue stands right before the muxer's tag at whose time it is shown.
pub proof fn law_output_is_framed(
    before: Timeline,
    settings: Settings,
    data: Seq<u8>,
    running_time: Option<nat>,
    name: MessageName,
)
    ensures
        ({
            let pieces = before.received_pieces(settings, data, running_time);
            &&& leads_to_tags(pieces)
            &&& forall|i: int|
                #![trigger pieces[i]]
                0 <= i < pieces.len() ==> is_framed(pieces[i], name) || (i == 0
                    && !before.header_seen && is_file_header(pieces[i]))
        }),
{
    let fed = before.fed(data, running_time);
    let opened = fed.opened();
    let first = fed.opened_pieces();
    let rest = opened.spliced_pieces(settings);
    let pieces = before.received_pieces(settings, data, running_time);
    if opened.header_seen {
        lemma_spliced_is_framed(opened, settings, name);
        lemma_leads_to_tags_concat(first, rest);
        assert forall|i: int| #![trigger pieces[i]] 0 <= i < pieces.len() implies is_framed(
            pieces[i],
            name,
        ) || (i == 0 && !before.header_seen && is_file_header(pieces[i])) by {
            if i >= first.len() {
                assert(pieces[i] == rest[i - first.len()]);
            }
        }
    }
}

/// Where the muxer's tags in `pieces`, from `from` on, are in order of time, so
/// are all of them.
pub(crate) proof fn lemma_order_carries_over(pieces: Seq<Piece>, from: int, i: int, j: int)
    requires
        0 <= from <= i <= j < pieces.len(),
        leads_to_tags(pieces),
        forall|k: int, l: int|
            #![trigger pieces[k], pieces[l]]
            from <= k <= l < pieces.len() && pieces[k] is Passed && pieces[l] is Passed
                ==> timestamp_of(pieces[k]) <= timestamp_of(pieces[l]),
    ensures
        timestamp_of(pieces[i]) <= timestamp_of(pieces[j]),
    decreases pieces.len() - i, pieces.len() - j,
{
    if i < j {
        if !(pieces[i] is Passed) {
            assert(timestamp_of(pieces[i]) == timestamp_of(pieces[i + 1]));
            lemma_order_carries_over(pieces, from, i + 1, j);
        } else if !(pieces[j] is Passed) {
            assert(timestamp_of(pieces[j]) == timestamp_of(pieces[j + 1]));
            lemma_order_carries_over(pieces, from, i, j + 1);
        }
    }
}

/// The output is in order of time wherever the muxer's tags are.
pub proof fn law_output_is_in_order(
    before: Timeline,
    settings: Settings,
    data: Seq<u8>,
    running_time: Option<nat>,
)
    requires
        ({
            let pieces = before.received_pieces(settings, data, running_time);
            let from = before.fed(data, running_time).opened_pieces().len() as int;
            forall|i: int, j: int|
                #![trigger pieces[i], pieces[j]]
                from <= i <= j < pieces.len() && pieces[i] is Passed && pieces[j] is Passed
                    ==> timestamp_of(pieces[i]) <= timestamp_of(pieces[j])
        }),
    ensures
        ({
            let pieces = before.received_pieces(settings, data, running_time);
            let from = before.fed(data, running_time).opened_pieces().len() as int;
            forall|i: int, j: int|
                #![trigger pieces[i], pieces[j]]
                from <= i <= j < pieces.len() ==> timestamp_of(pieces[i]) <= timestamp_of(
                    pieces[j],
                )
        }),
{
    let pieces = before.received_pieces(settings, data, running_time);
    let from = before.fed(data, running_time).opened_pieces().len() as int;
    law_output_is_framed(before, settings, data, running_time, MessageName::OnCaption);
    assert forall|i: int, j: int|
        #![trigger pieces[i], pieces[j]]
        from <= i <= j < pieces.len() implies timestamp_of(pieces[i]) <= timestamp_of(
        pieces[j],
    ) by {
        lemma_order_carries_over(pieces, from, i, j);
    }
}

/// How many of `pieces` are cues.
pub open spec fn cue_count(pieces: Seq<Piece>) -> nat
    decreases pieces.len(),
{
    if pieces.len() == 0 {
        0
    } else {
        cue_count(pieces.drop_last()) + if pieces.last() is Cue {
            1nat
        } else {
            0nat
        }
    }
}

pub(crate) proof fn lemma_cue_count_concat(first: Seq<Piece>, second: Seq<Piece>)
    ensures
        cue_count(first + second) == cue_count(first) + cue_count(second),
    decreases second.len(),
{
    if second.len() == 0 {
        assert(first + second =~= first);
    } else {
        lemma_cue_count_concat(first, second.drop_last());
        assert((first + second).drop_last() =~= first + second.drop_last());
    }
}

proof fn lemma_all_are_cues(pieces: Seq<Piece>)
    requires
        forall|i: int| 0 <= i < pieces.len() ==> #[trigger] pieces[i] is Cue,
    ensures
        cue_count(pieces) == pieces.len(),
    decreases pieces.len(),
{
    if pieces.len() > 0 {
        lemma_all_are_cues(pieces.drop_last());
    }
}

proof fn lemma_none_is_a_cue(pieces: Seq<Piece>)
    requires
        forall|i: int| 0 <= i < pieces.len() ==> !(#[trigger] pieces[i] is Cue),
    ensures
        cue_count(pieces) == 0,
    decreases pieces.len(),
{
    if pieces.len() > 0 {
        lemma_none_is_a_cue(pieces.drop_last());
    }
}

proof fn lemma_advanced_counts(before: Timeline, settings: Settings)
    requires
        before.in_order(),
    ensures
        before.advanced(settings).in_order(),
        before.advanced(settings).accepted() == before.accepted(),
        before.advanced(settings).written == before.written + cue_count(
            before.advanced_pieces(settings),
        ),
        settings.late_policy is Clamp ==> before.advanced(settings).dropped == before.dropped,
{
    let priming = before.priming_pieces(settings);
    let arrived = before.arrived(settings);
    let cues = arrived.drained_pieces(settings.late_policy);
    let tag = seq![
        Piece::Passed(
            before.partial.take(crate::flv::tag_header(before.partial).tag_len() as int),
        ),
    ];
    lemma_none_is_a_cue(priming);
    lemma_all_are_cues(cues);
    lemma_none_is_a_cue(tag);
    lemma_cue_count_concat(priming, cues);
    lemma_cue_count_concat(priming + cues, tag);
    arrived.lemma_drained(settings.late_policy);
    if let Some(origin) = arrived.origin {
        crate::timeline::lemma_cues_are_partitioned(
            arrived.pending,
            origin,
            arrived.position_ms,
            settings.late_policy,
        );
    }
}

proof fn lemma_spliced_counts(before: Timeline, settings: Settings)
    requires
        before.in_order(),
    ensures
        before.spliced(settings).accepted() == before.accepted(),
        before.spliced(settings).written == before.written + cue_count(
            before.spliced_pieces(settings),
        ),
        settings.late_policy is Clamp ==> before.spliced(settings).dropped == before.dropped,
    decreases before.partial.len(),
{
    if crate::flv::starts_with_tag(before.partial) {
        let next = before.advanced(settings);
        lemma_advanced_counts(before, settings);
        lemma_spliced_counts(next, settings);
        lemma_cue_count_concat(
            before.advanced_pieces(settings),
            next.spliced_pieces(settings),
        );
    }
}

/// No cue is lost: one that was taken in is written, discarded for being late
/// or still queued. As many are counted as written as cues go out, and none is
/// discarded unless the policy says so.
pub proof fn law_no_cue_is_lost(
    before: Timeline,
    settings: Settings,
    data: Seq<u8>,
    running_time: Option<nat>,
)
    requires
        before.settled(),
    ensures
        ({
            let next = before.received(settings, data, running_time);
            let pieces = before.received_pieces(settings, data, running_time);
            &&& next.accepted() == before.accepted()
            &&& next.written == before.written + cue_count(pieces)
            &&& settings.late_policy is Clamp ==> next.dropped == before.dropped
        }),
        ({
            let next = before.finished(settings.late_policy);
            let pieces = before.finished_pieces(settings.late_policy);
            &&& next.accepted() == before.accepted()
            &&& next.written == before.written + cue_count(pieces)
            &&& settings.late_policy is Clamp ==> next.dropped == before.dropped
        }),
        forall|cue: QueuedCue|
            (#[trigger] before.queued(cue)).accepted() == before.accepted() + 1,
{
    let fed = before.fed(data, running_time);
    let opened = fed.opened();
    if opened.header_seen {
        lemma_spliced_counts(opened, settings);
        lemma_none_is_a_cue(fed.opened_pieces());
        lemma_cue_count_concat(fed.opened_pieces(), opened.spliced_pieces(settings));
    }
    lemma_all_are_cues(before.finished_pieces(settings.late_policy));
    before.lemma_finished_settled(settings.late_policy);
    if let Some(origin) = before.origin {
        crate::timeline::lemma_cues_are_partitioned(
            before.pending,
            origin,
            before.position_ms,
            settings.late_policy,
        );
    }
    assert forall|cue: QueuedCue| (#[trigger] before.queued(cue)).accepted() == before.accepted()
        + 1 by {
        before.lemma_queued(cue);
    }
}

/// Whether the stream has not reached `cue`.
pub open spec fn is_ahead(timeline: Timeline, cue: QueuedCue) -> bool {
    match timeline.origin {
        Some(origin) => crate::timeline::cue_ms(origin, cue.running_time) > timeline.position_ms,
        None => true,
    }
}

proof fn lemma_drained_leaves_cues_ahead(before: Timeline, policy: LatePolicy)
    ensures
        forall|i: int|
            0 <= i < before.drained(policy).pending.len() ==> is_ahead(
                before.drained(policy),
                #[trigger] before.drained(policy).pending[i],
            ),
{
    if let Some(origin) = before.origin {
        let waits = crate::timeline::waiting(origin, before.position_ms);
        assert forall|i: int| 0 <= i < before.drained(policy).pending.len() implies is_ahead(
            before.drained(policy),
            #[trigger] before.drained(policy).pending[i],
        ) by {
            before.pending.lemma_filter_pred(waits, i);
        }
    }
}

proof fn lemma_spliced_leaves_cues_ahead(before: Timeline, settings: Settings)
    requires
        crate::flv::starts_with_tag(before.partial) || forall|i: int|
            0 <= i < before.pending.len() ==> is_ahead(before, #[trigger] before.pending[i]),
    ensures
        forall|i: int|
            0 <= i < before.spliced(settings).pending.len() ==> is_ahead(
                before.spliced(settings),
                #[trigger] before.spliced(settings).pending[i],
            ),
    decreases before.partial.len(),
{
    if crate::flv::starts_with_tag(before.partial) {
        let next = before.advanced(settings);
        lemma_drained_leaves_cues_ahead(before.arrived(settings), settings.late_policy);
        assert forall|i: int| 0 <= i < next.pending.len() implies is_ahead(
            next,
            #[trigger] next.pending[i],
        ) by {
            assert(is_ahead(
                before.arrived(settings).drained(settings.late_policy),
                before.arrived(settings).drained(settings.late_policy).pending[i],
            ));
        }
        lemma_spliced_leaves_cues_ahead(next, settings);
    }
}

/// A cue waits for one tag at most: once a tag has passed, no cue stays queued
/// that the stream has reached.
pub proof fn law_reached_cue_leaves_with_the_next_tag(
    before: Timeline,
    settings: Settings,
    data: Seq<u8>,
    running_time: Option<nat>,
)
    requires
        before.fed(data, running_time).opened().header_seen,
        crate::flv::starts_with_tag(before.fed(data, running_time).opened().partial),
    ensures
        ({
            let next = before.received(settings, data, running_time);
            forall|i: int|
                0 <= i < next.pending.len() ==> is_ahead(next, #[trigger] next.pending[i])
        }),
{
    lemma_spliced_leaves_cues_ahead(before.fed(data, running_time).opened(), settings);
}

/// Whether `pieces` hold the text of `cue`, no earlier than its own time.
pub open spec fn is_written(pieces: Seq<Piece>, origin: nat, cue: QueuedCue) -> bool {
    exists|i: int|
        0 <= i < pieces.len() && (#[trigger] pieces[i]) is Cue && pieces[i]->text == cue.text
            && timestamp_of(pieces[i]) >= crate::timeline::cue_ms(origin, cue.running_time)
}

pub(crate) proof fn lemma_written_in_concat(
    first: Seq<Piece>,
    second: Seq<Piece>,
    origin: nat,
    cue: QueuedCue,
)
    requires
        is_written(first, origin, cue) || is_written(second, origin, cue),
    ensures
        is_written(first + second, origin, cue),
{
    if is_written(first, origin, cue) {
        let i = choose|i: int|
            0 <= i < first.len() && (#[trigger] first[i]) is Cue && first[i]->text == cue.text
                && timestamp_of(first[i]) >= crate::timeline::cue_ms(origin, cue.running_time);
        assert((first + second)[i] == first[i]);
    } else {
        let i = choose|i: int|
            0 <= i < second.len() && (#[trigger] second[i]) is Cue && second[i]->text == cue.text
                && timestamp_of(second[i]) >= crate::timeline::cue_ms(origin, cue.running_time);
        assert((first + second)[first.len() + i] == second[i]);
    }
}

proof fn lemma_advanced_waits_or_writes(
    before: Timeline,
    settings: Settings,
    origin: nat,
    cue: QueuedCue,
)
    requires
        before.origin == Some(origin),
        settings.late_policy is Clamp,
        before.pending.contains(cue),
    ensures
        before.advanced(settings).pending.contains(cue) || is_written(
            before.advanced_pieces(settings),
            origin,
            cue,
        ),
{
    let arrived = before.arrived(settings);
    let at = choose|at: int| 0 <= at < before.pending.len() && before.pending[at] == cue;
    let waits = crate::timeline::waiting(origin, arrived.position_ms);
    let out = crate::timeline::ready(origin, arrived.position_ms, settings.late_policy);
    let priming = before.priming_pieces(settings);
    let cues = arrived.drained_pieces(settings.late_policy);
    let tag = seq![
        Piece::Passed(
            before.partial.take(crate::flv::tag_header(before.partial).tag_len() as int),
        ),
    ];
    if waits(cue) {
        before.pending.lemma_filter_contains(waits, at);
    } else {
        before.pending.lemma_filter_contains(out, at);
        let going = before.pending.filter(out);
        let i = choose|i: int| 0 <= i < going.len() && going[i] == cue;
        assert(cues[i] == Piece::Cue { timestamp_ms: arrived.position_ms, text: cue.text });
        assert(is_written(cues, origin, cue));
        lemma_written_in_concat(priming, cues, origin, cue);
        lemma_written_in_concat(priming + cues, tag, origin, cue);
    }
}

proof fn lemma_spliced_waits_or_writes(
    before: Timeline,
    settings: Settings,
    origin: nat,
    cue: QueuedCue,
)
    requires
        before.origin == Some(origin),
        settings.late_policy is Clamp,
        before.pending.contains(cue),
    ensures
        before.spliced(settings).pending.contains(cue) || is_written(
            before.spliced_pieces(settings),
            origin,
            cue,
        ),
    decreases before.partial.len(),
{
    if crate::flv::starts_with_tag(before.partial) {
        let next = before.advanced(settings);
        lemma_advanced_waits_or_writes(before, settings, origin, cue);
        if next.pending.contains(cue) {
            lemma_spliced_waits_or_writes(next, settings, origin, cue);
        }
        if is_written(before.advanced_pieces(settings), origin, cue) || is_written(
            next.spliced_pieces(settings),
            origin,
            cue,
        ) {
            lemma_written_in_concat(
                before.advanced_pieces(settings),
                next.spliced_pieces(settings),
                origin,
                cue,
            );
        }
    }
}

/// Where late cues are moved and not discarded, every queued cue either still
/// waits after a buffer or has gone out with its text, never before its time.
/// That holds whatever the text is: an empty one is how a display is cleared.
/// At the end of the stream all that wait go out.
pub proof fn law_every_cue_waits_or_is_written(
    before: Timeline,
    settings: Settings,
    data: Seq<u8>,
    running_time: Option<nat>,
    origin: nat,
    cue: QueuedCue,
)
    requires
        before.fed(data, running_time).origin == Some(origin),
        settings.late_policy is Clamp,
        before.pending.contains(cue),
    ensures
        before.received(settings, data, running_time).pending.contains(cue) || is_written(
            before.received_pieces(settings, data, running_time),
            origin,
            cue,
        ),
        before.origin is Some && before.header_seen ==> is_written(
            before.finished_pieces(settings.late_policy),
            origin,
            cue,
        ),
{
    let fed = before.fed(data, running_time);
    let opened = fed.opened();
    if opened.header_seen {
        lemma_spliced_waits_or_writes(opened, settings, origin, cue);
        if is_written(opened.spliced_pieces(settings), origin, cue) {
            lemma_written_in_concat(
                fed.opened_pieces(),
                opened.spliced_pieces(settings),
                origin,
                cue,
            );
        }
    }
    if before.origin is Some && before.header_seen {
        let at = choose|at: int| 0 <= at < before.pending.len() && before.pending[at] == cue;
        let out = crate::timeline::kept(origin, before.position_ms, settings.late_policy);
        before.pending.lemma_filter_contains(out, at);
        let going = before.pending.filter(out);
        let i = choose|i: int| 0 <= i < going.len() && going[i] == cue;
        let pieces = before.finished_pieces(settings.late_policy);
        assert(pieces[i] == crate::timeline::at_own_time(origin, before.position_ms)(cue));
    }
}

/// Whether `piece`, where it is a cue, carries the text of one of `cues`, no
/// earlier than that cue's own time, and exactly then where late cues are
/// discarded.
pub open spec fn comes_from(
    piece: Piece,
    cues: Seq<QueuedCue>,
    origin: nat,
    policy: LatePolicy,
) -> bool {
    piece is Cue ==> exists|i: int|
        #![trigger cues[i]]
        0 <= i < cues.len() && cues[i].text == piece->text && crate::timeline::cue_ms(
            origin,
            cues[i].running_time,
        ) <= timestamp_of(piece) && (policy is Drop ==> crate::timeline::cue_ms(
            origin,
            cues[i].running_time,
        ) == timestamp_of(piece))
}

pub(crate) proof fn lemma_filtered_cue_was_there(
    cues: Seq<QueuedCue>,
    pred: spec_fn(QueuedCue) -> bool,
    at: int,
)
    requires
        0 <= at < cues.filter(pred).len(),
    ensures
        cues.contains(cues.filter(pred)[at]),
        pred(cues.filter(pred)[at]),
{
    cues.lemma_filter_pred(pred, at);
    cues.lemma_filter_contains_rev(pred, cues.filter(pred)[at]);
}

proof fn lemma_spliced_invents_nothing(before: Timeline, settings: Settings, origin: nat)
    requires
        before.origin == Some(origin),
    ensures
        ({
            let pieces = before.spliced_pieces(settings);
            forall|i: int|
                0 <= i < pieces.len() ==> comes_from(
                    #[trigger] pieces[i],
                    before.pending,
                    origin,
                    settings.late_policy,
                )
        }),
    decreases before.partial.len(),
{
    if crate::flv::starts_with_tag(before.partial) {
        let next = before.advanced(settings);
        let arrived = before.arrived(settings);
        let first = before.advanced_pieces(settings);
        let rest = next.spliced_pieces(settings);
        let pieces = before.spliced_pieces(settings);
        let priming = before.priming_pieces(settings);
        let out = crate::timeline::ready(origin, arrived.position_ms, settings.late_policy);
        let waits = crate::timeline::waiting(origin, arrived.position_ms);
        let going = before.pending.filter(out);
        lemma_spliced_invents_nothing(next, settings, origin);
        assert forall|i: int| 0 <= i < pieces.len() implies comes_from(
            #[trigger] pieces[i],
            before.pending,
            origin,
            settings.late_policy,
        ) by {
            if i >= first.len() {
                let piece = rest[i - first.len()];
                assert(pieces[i] == piece);
                assert(comes_from(piece, next.pending, origin, settings.late_policy));
                if piece is Cue {
                    let k = choose|k: int|
                        #![trigger next.pending[k]]
                        0 <= k < next.pending.len() && next.pending[k].text == piece->text
                            && crate::timeline::cue_ms(origin, next.pending[k].running_time)
                            <= timestamp_of(piece) && (settings.late_policy is Drop
                            ==> crate::timeline::cue_ms(origin, next.pending[k].running_time)
                            == timestamp_of(piece));
                    lemma_filtered_cue_was_there(before.pending, waits, k);
                    let at = before.pending.index_of(next.pending[k]);
                    assert(before.pending[at] == next.pending[k]);
                }
            } else if priming.len() <= i < priming.len() + going.len() {
                let k = i - priming.len();
                lemma_filtered_cue_was_there(before.pending, out, k);
                let at = before.pending.index_of(going[k]);
                assert(before.pending[at] == going[k]);
            }
        }
    }
}

/// Every cue that goes out was queued: none is invented, none is shown before
/// its time, and where late cues are discarded each is at its own time. While
/// the cues' clock is not tied to the muxer's, none goes out.
pub proof fn law_no_cue_is_invented(
    before: Timeline,
    settings: Settings,
    data: Seq<u8>,
    running_time: Option<nat>,
)
    ensures
        ({
            let pieces = before.received_pieces(settings, data, running_time);
            forall|i: int|
                0 <= i < pieces.len() ==> match before.fed(data, running_time).origin {
                    Some(origin) => comes_from(
                        #[trigger] pieces[i],
                        before.pending,
                        origin,
                        settings.late_policy,
                    ),
                    None => !(pieces[i] is Cue),
                }
        }),
        ({
            let pieces = before.finished_pieces(settings.late_policy);
            forall|i: int|
                0 <= i < pieces.len() ==> before.origin is Some && comes_from(
                    #[trigger] pieces[i],
                    before.pending,
                    before.origin->0,
                    settings.late_policy,
                )
        }),
{
    let fed = before.fed(data, running_time);
    let opened = fed.opened();
    if opened.header_seen {
        let first = fed.opened_pieces();
        let rest = opened.spliced_pieces(settings);
        let pieces = before.received_pieces(settings, data, running_time);
        if let Some(origin) = fed.origin {
            lemma_spliced_invents_nothing(opened, settings, origin);
        } else {
            lemma_no_cue_without_origin(opened, settings);
        }
        assert forall|i: int| 0 <= i < pieces.len() implies match fed.origin {
            Some(origin) => comes_from(
                #[trigger] pieces[i],
                before.pending,
                origin,
                settings.late_policy,
            ),
            None => !(pieces[i] is Cue),
        } by {
            if i >= first.len() {
                assert(pieces[i] == rest[i - first.len()]);
            }
        }
    }
    if before.origin is Some && before.header_seen {
        let origin = before.origin->0;
        let pieces = before.finished_pieces(settings.late_policy);
        let out = crate::timeline::kept(origin, before.position_ms, settings.late_policy);
        let going = before.pending.filter(out);
        assert forall|i: int| 0 <= i < pieces.len() implies comes_from(
            #[trigger] pieces[i],
            before.pending,
            origin,
            settings.late_policy,
        ) by {
            lemma_filtered_cue_was_there(before.pending, out, i);
            let at = before.pending.index_of(going[i]);
            assert(before.pending[at] == going[i]);
        }
    }
}

proof fn lemma_no_cue_without_origin(before: Timeline, settings: Settings)
    requires
        before.origin is None,
    ensures
        ({
            let pieces = before.spliced_pieces(settings);
            forall|i: int| 0 <= i < pieces.len() ==> !(#[trigger] pieces[i] is Cue)
        }),
    decreases before.partial.len(),
{
    if crate::flv::starts_with_tag(before.partial) {
        lemma_no_cue_without_origin(before.advanced(settings), settings);
    }
}

proof fn lemma_spliced_primes_no_more(before: Timeline, settings: Settings)
    requires
        before.primed || !settings.prime,
    ensures
        before.spliced(settings).primed == before.primed,
        ({
            let pieces = before.spliced_pieces(settings);
            forall|i: int| 0 <= i < pieces.len() ==> !(#[trigger] pieces[i] is Priming)
        }),
    decreases before.partial.len(),
{
    if crate::flv::starts_with_tag(before.partial) {
        lemma_spliced_primes_no_more(before.advanced(settings), settings);
    }
}

/// The subtitle stream is declared once, with the first tag and before
/// everything that goes out with it, at the time of that tag; and not at all
/// where that is not wanted.
pub proof fn law_priming_comes_once_and_first(
    before: Timeline,
    settings: Settings,
    data: Seq<u8>,
    running_time: Option<nat>,
)
    ensures
        ({
            let opened = before.fed(data, running_time).opened();
            let from = before.fed(data, running_time).opened_pieces().len() as int;
            let next = before.received(settings, data, running_time);
            let pieces = before.received_pieces(settings, data, running_time);
            if settings.prime && !before.primed && opened.header_seen
                && crate::flv::starts_with_tag(opened.partial) {
                &&& next.primed
                &&& from < pieces.len()
                &&& pieces[from] == (Piece::Priming {
                    timestamp_ms: crate::flv::tag_header(opened.partial).timestamp_ms as nat,
                })
                &&& forall|i: int|
                    0 <= i < pieces.len() && i != from ==> !(#[trigger] pieces[i] is Priming)
            } else {
                &&& next.primed == before.primed
                &&& forall|i: int| 0 <= i < pieces.len() ==> !(#[trigger] pieces[i] is Priming)
            }
        }),
{
    let fed = before.fed(data, running_time);
    let opened = fed.opened();
    let first = fed.opened_pieces();
    let pieces = before.received_pieces(settings, data, running_time);
    if opened.header_seen {
        let rest = opened.spliced_pieces(settings);
        if settings.prime && !before.primed && crate::flv::starts_with_tag(opened.partial) {
            let next = opened.advanced(settings);
            let head = opened.advanced_pieces(settings);
            let tail = next.spliced_pieces(settings);
            lemma_spliced_primes_no_more(next, settings);
            assert(pieces[first.len() as int] == rest[0]);
            assert(rest[0] == head[0]);
            assert forall|i: int| 0 <= i < pieces.len() && i != first.len() implies !(
            #[trigger] pieces[i] is Priming) by {
                if i >= first.len() + head.len() {
                    assert(pieces[i] == tail[i - first.len() - head.len()]);
                } else if i >= first.len() {
                    assert(pieces[i] == head[i - first.len()]);
                }
            }
        } else if crate::flv::starts_with_tag(opened.partial) {
            lemma_spliced_primes_no_more(opened, settings);
            assert forall|i: int| 0 <= i < pieces.len() implies !(
            #[trigger] pieces[i] is Priming) by {
                if i >= first.len() {
                    assert(pieces[i] == rest[i - first.len()]);
                }
            }
        }
    }
}

/// A cue taken in stands right behind those of the same running time or an
/// earlier one, and the others keep their order: cues of one running time leave
/// as they came.
pub proof fn law_queue_is_stable(before: Timeline, cue: QueuedCue)
    requires
        before.in_order(),
    ensures
        before.queued(cue).in_order(),
        before.queued(cue).pending == before.pending.insert(
            before.pending.filter(crate::timeline::not_after(cue.running_time)).len() as int,
            cue,
        ),
{
    before.lemma_queued(cue);
    let at = crate::timeline::split_point(before.pending, cue.running_time);
    crate::timeline::lemma_split_point(before.pending, cue.running_time);
    crate::timeline::lemma_queue_splits(before.pending, at, cue.running_time);
    assert(before.queued(cue).pending =~= before.pending.insert(at, cue));
}

/// What goes out at the end of the stream is framed, in order of time, and not
/// before the tag passed on last; and nothing stays queued.
pub proof fn law_stream_ends_in_order(before: Timeline, policy: LatePolicy, name: MessageName)
    requires
        before.settled(),
    ensures
        ({
            let pieces = before.finished_pieces(policy);
            &&& forall|i: int|
                #![trigger pieces[i]]
                0 <= i < pieces.len() ==> is_framed(pieces[i], name) && timestamp_of(pieces[i])
                    >= before.position_ms
            &&& forall|i: int, j: int|
                #![trigger pieces[i], pieces[j]]
                0 <= i <= j < pieces.len() ==> timestamp_of(pieces[i]) <= timestamp_of(pieces[j])
        }),
        before.origin is Some && before.header_seen ==> before.finished(policy).pending.len() == 0,
        before.finished(policy).partial == before.partial,
{
    if before.origin is Some && before.header_seen {
        let origin = before.origin->0;
        let out = crate::timeline::kept(origin, before.position_ms, policy);
        let going = before.pending.filter(out);
        let pieces = before.finished_pieces(policy);
        crate::timeline::lemma_filter_keeps_order(before.pending, out);
        assert forall|i: int| #![trigger pieces[i]] 0 <= i < pieces.len() implies is_framed(
            pieces[i],
            name,
        ) && timestamp_of(pieces[i]) >= before.position_ms by {
            lemma_own_piece_is_framed(pieces[i], name);
        }
        assert forall|i: int, j: int|
            #![trigger pieces[i], pieces[j]]
            0 <= i <= j < pieces.len() implies timestamp_of(pieces[i]) <= timestamp_of(
            pieces[j],
        ) by {
            assert(going[i].running_time <= going[j].running_time);
            assert(crate::timeline::cue_ms(origin, going[i].running_time)
                <= crate::timeline::cue_ms(origin, going[j].running_time)) by {
                lemma_later_cue_is_shown_later(
                    origin,
                    going[i].running_time,
                    going[j].running_time,
                );
            }
        }
    }
}

pub(crate) proof fn lemma_later_cue_is_shown_later(origin: nat, first: nat, second: nat)
    requires
        first <= second,
    ensures
        crate::timeline::cue_ms(origin, first) <= crate::timeline::cue_ms(origin, second),
{
}

} // verus!
