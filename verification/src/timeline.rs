//! What the injector does to a stream, as mathematics.
//!
//! A [`Timeline`] is everything the injector remembers between two calls. Each
//! operation takes one timeline to the next, and yields the pieces of output
//! that leave meanwhile: bytes of the muxer that are passed on, and tags of the
//! injector's own between them.

use vstd::prelude::*;

use crate::amf::MessageName;
use crate::flv::{FILE_HEADER_LEN, MAXIMUM_TIMESTAMP_MS};
use crate::settings::{LatePolicy, Settings};

verus! {

/// Nanoseconds in a millisecond.
pub const NANOSECONDS_PER_MILLISECOND: u64 = 1_000_000;

/// A cue that waits for the stream to reach it.
pub struct QueuedCue {
    /// Pipeline running time in nanoseconds.
    pub running_time: nat,
    pub text: Seq<char>,
}

/// What the injector remembers.
pub struct Timeline {
    /// Cues not yet written.
    pub pending: Seq<QueuedCue>,
    /// Bytes received that no whole tag could be made of yet.
    pub partial: Seq<u8>,
    /// Whether the start of the stream, with its file header if it has one, is
    /// behind.
    pub header_seen: bool,
    /// Millisecond timestamp of the tag passed on last.
    pub position_ms: nat,
    /// Running time that the muxer's timestamps count from, once known.
    pub origin: Option<nat>,
    /// Cues written.
    pub written: nat,
    /// Cues discarded for being late.
    pub dropped: nat,
    /// Whether the subtitle stream has been declared.
    pub primed: bool,
}

/// One buffer of output.
pub enum Piece {
    /// Bytes of the muxer, as they came.
    Passed(Seq<u8>),
    /// The invisible cue that declares the subtitle stream.
    Priming { timestamp_ms: nat },
    /// A cue.
    Cue { timestamp_ms: nat, text: Seq<char> },
}

/// A zero width space: a character for every validator that asks, and nothing
/// for every viewer that looks.
pub open spec fn priming_text() -> Seq<char> {
    "\u{200b}"@
}

/// The tag that carries `text` at `timestamp_ms`.
pub open spec fn cue_tag(name: MessageName, timestamp_ms: nat, text: Seq<char>) -> Seq<u8> {
    crate::flv::script_data_tag_bytes(
        timestamp_ms,
        crate::amf::script_data_body_bytes(name, text),
    )
}

impl Piece {
    /// The bytes of the piece, with cues going out as messages called `name`.
    pub open spec fn bytes(self, name: MessageName) -> Seq<u8> {
        match self {
            Piece::Passed(bytes) => bytes,
            Piece::Priming { timestamp_ms } => cue_tag(name, timestamp_ms, priming_text()),
            Piece::Cue { timestamp_ms, text } => cue_tag(name, timestamp_ms, text),
        }
    }
}

/// The buffers that `pieces` become.
pub open spec fn encoded(pieces: Seq<Piece>, name: MessageName) -> Seq<Seq<u8>> {
    pieces.map_values(|piece: Piece| piece.bytes(name))
}

/// Pieces one behind another become buffers one behind another.
pub proof fn lemma_encoded_concat(first: Seq<Piece>, second: Seq<Piece>, name: MessageName)
    ensures
        encoded(first + second, name) == encoded(first, name) + encoded(second, name),
{
    assert(encoded(first + second, name) =~= encoded(first, name) + encoded(second, name));
}

/// Where a cue belongs on the muxer's clock: milliseconds from the origin, zero
/// for a cue from before it, and never more than a tag can carry.
pub open spec fn cue_ms(origin: nat, running_time: nat) -> nat {
    if running_time < origin {
        0
    } else if (running_time - origin) as nat / (NANOSECONDS_PER_MILLISECOND as nat)
        > MAXIMUM_TIMESTAMP_MS {
        MAXIMUM_TIMESTAMP_MS as nat
    } else {
        (running_time - origin) as nat / (NANOSECONDS_PER_MILLISECOND as nat)
    }
}

/// Cues that the stream at `position_ms` has not reached.
pub open spec fn waiting(origin: nat, position_ms: nat) -> spec_fn(QueuedCue) -> bool {
    |cue: QueuedCue| cue_ms(origin, cue.running_time) > position_ms
}

/// Cues that the stream at `position_ms` has passed and the policy gives up.
pub open spec fn late(
    origin: nat,
    position_ms: nat,
    policy: LatePolicy,
) -> spec_fn(QueuedCue) -> bool {
    |cue: QueuedCue| policy is Drop && cue_ms(origin, cue.running_time) < position_ms
}

/// Cues that go out at `position_ms`: reached, and not given up.
pub open spec fn ready(
    origin: nat,
    position_ms: nat,
    policy: LatePolicy,
) -> spec_fn(QueuedCue) -> bool {
    |cue: QueuedCue|
        !waiting(origin, position_ms)(cue) && !late(origin, position_ms, policy)(cue)
}

/// Cues that still go out when the stream ends at `position_ms`: all that are
/// not given up.
pub open spec fn kept(
    origin: nat,
    position_ms: nat,
    policy: LatePolicy,
) -> spec_fn(QueuedCue) -> bool {
    |cue: QueuedCue| !late(origin, position_ms, policy)(cue)
}

/// A cue written at `position_ms`.
pub open spec fn at_position(position_ms: nat) -> spec_fn(QueuedCue) -> Piece {
    |cue: QueuedCue| Piece::Cue { timestamp_ms: position_ms, text: cue.text }
}

/// A cue written at its own time, or at `position_ms` where the stream is past
/// it.
pub open spec fn at_own_time(origin: nat, position_ms: nat) -> spec_fn(QueuedCue) -> Piece {
    |cue: QueuedCue|
        Piece::Cue {
            timestamp_ms: if cue_ms(origin, cue.running_time) < position_ms {
                position_ms
            } else {
                cue_ms(origin, cue.running_time)
            },
            text: cue.text,
        }
}

/// Cues with a running time of at most `running_time`.
pub open spec fn not_after(running_time: nat) -> spec_fn(QueuedCue) -> bool {
    |cue: QueuedCue| cue.running_time <= running_time
}

/// Cues with a running time beyond `running_time`.
pub open spec fn after(running_time: nat) -> spec_fn(QueuedCue) -> bool {
    |cue: QueuedCue| cue.running_time > running_time
}

/// Whether `bytes` starts with the signature of an FLV file.
pub open spec fn has_signature(bytes: Seq<u8>) -> bool {
    bytes.len() >= 3 && bytes[0] == 0x46 && bytes[1] == 0x4c && bytes[2] == 0x56
}

impl Timeline {
    /// Before anything was received.
    pub open spec fn initial() -> Timeline {
        Timeline {
            pending: Seq::empty(),
            partial: Seq::empty(),
            header_seen: false,
            position_ms: 0,
            origin: None,
            written: 0,
            dropped: 0,
            primed: false,
        }
    }

    /// Cues taken in so far.
    pub open spec fn accepted(self) -> nat {
        self.written + self.dropped + self.pending.len()
    }

    /// Whether cues wait in the order of their running times.
    pub open spec fn in_order(self) -> bool {
        ordered(self.pending)
    }

    /// Whether nothing is held that could have been passed on.
    pub open spec fn holds_no_tag(self) -> bool {
        if self.header_seen {
            !crate::flv::starts_with_tag(self.partial)
        } else {
            self.partial.len() < FILE_HEADER_LEN
        }
    }

    /// What holds between any two calls, whatever the counts.
    pub open spec fn settled(self) -> bool {
        &&& self.in_order()
        &&& self.holds_no_tag()
        &&& self.position_ms <= MAXIMUM_TIMESTAMP_MS
    }

    /// What holds between any two calls.
    pub open spec fn wf(self) -> bool {
        &&& self.settled()
        &&& self.accepted() <= u64::MAX
    }

    /// Whether nothing of the stream has been seen yet. Other streams may have
    /// come before it.
    pub open spec fn is_fresh(self) -> bool {
        &&& self.pending.len() == 0
        &&& self.partial.len() == 0
        &&& !self.header_seen
        &&& self.position_ms == 0
        &&& self.origin is None
    }

    /// Takes in a cue, behind those of the same running time or an earlier one.
    pub open spec fn queued(self, cue: QueuedCue) -> Timeline {
        Timeline {
            pending: self.pending.filter(not_after(cue.running_time)).push(cue)
                + self.pending.filter(after(cue.running_time)),
            ..self
        }
    }

    /// Lets go of every cue that the stream position has reached.
    pub open spec fn drained(self, policy: LatePolicy) -> Timeline {
        match self.origin {
            None => self,
            Some(origin) => Timeline {
                pending: self.pending.filter(waiting(origin, self.position_ms)),
                written: self.written + self.pending.filter(
                    ready(origin, self.position_ms, policy),
                ).len(),
                dropped: self.dropped + self.pending.filter(
                    late(origin, self.position_ms, policy),
                ).len(),
                ..self
            },
        }
    }

    /// The cues that [`Timeline::drained`] writes.
    pub open spec fn drained_pieces(self, policy: LatePolicy) -> Seq<Piece> {
        match self.origin {
            None => Seq::empty(),
            Some(origin) => self.pending.filter(
                ready(origin, self.position_ms, policy),
            ).map_values(at_position(self.position_ms)),
        }
    }

    /// Receives bytes. The first ones that come with a running time fix the
    /// origin.
    pub open spec fn fed(self, data: Seq<u8>, running_time: Option<nat>) -> Timeline {
        Timeline {
            partial: self.partial + data,
            origin: if self.origin is None {
                running_time
            } else {
                self.origin
            },
            ..self
        }
    }

    /// Passes the file header on, once there are bytes enough to see whether
    /// there is one.
    pub open spec fn opened(self) -> Timeline {
        if self.header_seen || self.partial.len() < FILE_HEADER_LEN {
            self
        } else if has_signature(self.partial) {
            Timeline {
                header_seen: true,
                partial: self.partial.skip(FILE_HEADER_LEN as int),
                ..self
            }
        } else {
            Timeline { header_seen: true, ..self }
        }
    }

    /// What [`Timeline::opened`] passes on.
    pub open spec fn opened_pieces(self) -> Seq<Piece> {
        if !self.header_seen && self.partial.len() >= FILE_HEADER_LEN && has_signature(
            self.partial,
        ) {
            seq![Piece::Passed(self.partial.take(FILE_HEADER_LEN as int))]
        } else {
            Seq::empty()
        }
    }

    /// The stream has come to the tag that is held first.
    pub open spec fn arrived(self, settings: Settings) -> Timeline {
        Timeline {
            position_ms: crate::flv::tag_header(self.partial).timestamp_ms as nat,
            primed: self.primed || settings.prime,
            ..self
        }
    }

    /// Passes on the tag that is held first, behind the cues due before it.
    pub open spec fn advanced(self, settings: Settings) -> Timeline
        recommends
            crate::flv::starts_with_tag(self.partial),
    {
        Timeline {
            partial: self.partial.skip(crate::flv::tag_header(self.partial).tag_len() as int),
            ..self.arrived(settings).drained(settings.late_policy)
        }
    }

    /// The declaration of the subtitle stream, where it is still owed.
    pub open spec fn priming_pieces(self, settings: Settings) -> Seq<Piece> {
        if settings.prime && !self.primed {
            seq![
                Piece::Priming {
                    timestamp_ms: crate::flv::tag_header(self.partial).timestamp_ms as nat,
                },
            ]
        } else {
            Seq::empty()
        }
    }

    /// What [`Timeline::advanced`] passes on.
    pub open spec fn advanced_pieces(self, settings: Settings) -> Seq<Piece> {
        self.priming_pieces(settings) + self.arrived(settings).drained_pieces(settings.late_policy)
            + seq![
            Piece::Passed(
                self.partial.take(crate::flv::tag_header(self.partial).tag_len() as int),
            ),
        ]
    }

    /// Passes on every tag that is held in full.
    pub open spec fn spliced(self, settings: Settings) -> Timeline
        decreases self.partial.len(),
    {
        if crate::flv::starts_with_tag(self.partial) {
            self.advanced(settings).spliced(settings)
        } else {
            self
        }
    }

    /// What [`Timeline::spliced`] passes on.
    pub open spec fn spliced_pieces(self, settings: Settings) -> Seq<Piece>
        decreases self.partial.len(),
    {
        if crate::flv::starts_with_tag(self.partial) {
            self.advanced_pieces(settings) + self.advanced(settings).spliced_pieces(settings)
        } else {
            Seq::empty()
        }
    }

    /// Receives bytes of the muxer and passes on what is complete.
    pub open spec fn received(
        self,
        settings: Settings,
        data: Seq<u8>,
        running_time: Option<nat>,
    ) -> Timeline {
        let opened = self.fed(data, running_time).opened();
        if opened.header_seen {
            opened.spliced(settings)
        } else {
            opened
        }
    }

    /// What [`Timeline::received`] passes on.
    pub open spec fn received_pieces(
        self,
        settings: Settings,
        data: Seq<u8>,
        running_time: Option<nat>,
    ) -> Seq<Piece> {
        let fed = self.fed(data, running_time);
        let opened = fed.opened();
        if opened.header_seen {
            fed.opened_pieces() + opened.spliced_pieces(settings)
        } else {
            Seq::empty()
        }
    }

    /// The stream ends: every cue that is not given up goes out.
    pub open spec fn finished(self, policy: LatePolicy) -> Timeline {
        match self.origin {
            Some(origin) if self.header_seen => Timeline {
                pending: Seq::empty(),
                written: self.written + self.pending.filter(
                    kept(origin, self.position_ms, policy),
                ).len(),
                dropped: self.dropped + self.pending.filter(
                    late(origin, self.position_ms, policy),
                ).len(),
                ..self
            },
            _ => self,
        }
    }

    /// The stream is flushed: what was queued, held or known of its clock belongs
    /// to a timeline that is no longer sent. The counts stay, and so does what
    /// has been declared.
    pub open spec fn flushed(self) -> Timeline {
        Timeline {
            written: self.written,
            dropped: self.dropped,
            primed: self.primed,
            ..Timeline::initial()
        }
    }

    /// The cues that [`Timeline::finished`] writes.
    pub open spec fn finished_pieces(self, policy: LatePolicy) -> Seq<Piece> {
        match self.origin {
            Some(origin) if self.header_seen => self.pending.filter(
                kept(origin, self.position_ms, policy),
            ).map_values(at_own_time(origin, self.position_ms)),
            _ => Seq::empty(),
        }
    }
}

/// Whether cues stand in the order of their running times.
pub open spec fn ordered(cues: Seq<QueuedCue>) -> bool {
    forall|i: int, j: int|
        0 <= i <= j < cues.len() ==> cues[i].running_time <= cues[j].running_time
}

/// Taking cues out leaves the others in order.
pub proof fn lemma_filter_keeps_order(cues: Seq<QueuedCue>, pred: spec_fn(QueuedCue) -> bool)
    requires
        ordered(cues),
    ensures
        ordered(cues.filter(pred)),
        cues.len() > 0 ==> forall|i: int|
            0 <= i < cues.filter(pred).len() ==> (#[trigger] cues.filter(pred)[i]).running_time
                <= cues.last().running_time,
    decreases cues.len(),
{
    reveal(Seq::filter);
    if cues.len() > 0 {
        lemma_filter_keeps_order(cues.drop_last(), pred);
    }
}

/// A predicate that holds throughout filters nothing out.
pub proof fn lemma_filter_all(cues: Seq<QueuedCue>, pred: spec_fn(QueuedCue) -> bool)
    requires
        forall|i: int| 0 <= i < cues.len() ==> pred(#[trigger] cues[i]),
    ensures
        cues.filter(pred) == cues,
    decreases cues.len(),
{
    reveal(Seq::filter);
    if cues.len() > 0 {
        lemma_filter_all(cues.drop_last(), pred);
        assert(cues =~= cues.drop_last().push(cues.last()));
    }
}

/// In an ordered queue, the cues up to a running time are a prefix.
pub proof fn lemma_queue_splits(cues: Seq<QueuedCue>, at: int, running_time: nat)
    requires
        0 <= at <= cues.len(),
        forall|i: int| 0 <= i < at ==> (#[trigger] cues[i]).running_time <= running_time,
        forall|i: int| at <= i < cues.len() ==> (#[trigger] cues[i]).running_time > running_time,
    ensures
        cues.filter(not_after(running_time)) == cues.take(at),
        cues.filter(after(running_time)) == cues.skip(at),
{
    let first = cues.take(at);
    let rest = cues.skip(at);
    assert(cues =~= first + rest);
    Seq::filter_distributes_over_add(first, rest, not_after(running_time));
    Seq::filter_distributes_over_add(first, rest, after(running_time));
    lemma_filter_all(first, not_after(running_time));
    lemma_filter_all(rest, after(running_time));
    rest.lemma_all_neg_filter_empty(not_after(running_time));
    first.lemma_all_neg_filter_empty(after(running_time));
    assert(cues.filter(not_after(running_time)) =~= first);
    assert(cues.filter(after(running_time)) =~= rest);
}

/// Each cue waits, goes out or is given up, and only one of the three.
pub proof fn lemma_cues_are_partitioned(
    cues: Seq<QueuedCue>,
    origin: nat,
    position_ms: nat,
    policy: LatePolicy,
)
    ensures
        cues.filter(waiting(origin, position_ms)).len() + cues.filter(
            ready(origin, position_ms, policy),
        ).len() + cues.filter(late(origin, position_ms, policy)).len() == cues.len(),
        cues.filter(kept(origin, position_ms, policy)).len() + cues.filter(
            late(origin, position_ms, policy),
        ).len() == cues.len(),
        policy is Clamp ==> cues.filter(late(origin, position_ms, policy)).len() == 0,
    decreases cues.len(),
{
    reveal(Seq::filter);
    if cues.len() > 0 {
        lemma_cues_are_partitioned(cues.drop_last(), origin, position_ms, policy);
    }
}

impl Timeline {
    /// A cue taken in keeps the queue in order and is counted.
    pub proof fn lemma_queued(self, cue: QueuedCue)
        requires
            self.in_order(),
        ensures
            self.queued(cue).in_order(),
            self.queued(cue).accepted() == self.accepted() + 1,
    {
        let at = split_point(self.pending, cue.running_time);
        lemma_split_point(self.pending, cue.running_time);
        lemma_queue_splits(self.pending, at, cue.running_time);
    }

    /// Letting cues go keeps the others in order and loses none.
    pub proof fn lemma_drained(self, policy: LatePolicy)
        requires
            self.in_order(),
        ensures
            self.drained(policy).in_order(),
            self.drained(policy).accepted() == self.accepted(),
    {
        if let Some(origin) = self.origin {
            lemma_filter_keeps_order(self.pending, waiting(origin, self.position_ms));
            lemma_cues_are_partitioned(self.pending, origin, self.position_ms, policy);
        }
    }

    /// Passing tags on leaves no whole tag behind, keeps the cues in order and
    /// loses none.
    pub proof fn lemma_spliced(self, settings: Settings)
        requires
            self.in_order(),
        ensures
            self.spliced(settings).in_order(),
            self.spliced(settings).accepted() == self.accepted(),
            self.spliced(settings).header_seen == self.header_seen,
            !crate::flv::starts_with_tag(self.spliced(settings).partial),
            self.position_ms <= MAXIMUM_TIMESTAMP_MS ==> self.spliced(settings).position_ms
                <= MAXIMUM_TIMESTAMP_MS,
        decreases self.partial.len(),
    {
        if crate::flv::starts_with_tag(self.partial) {
            self.arrived(settings).lemma_drained(settings.late_policy);
            self.advanced(settings).lemma_spliced(settings);
        }
    }

    /// What holds between any two calls holds after bytes were received.
    pub proof fn lemma_received_settled(
        self,
        settings: Settings,
        data: Seq<u8>,
        running_time: Option<nat>,
    )
        requires
            self.settled(),
        ensures
            self.received(settings, data, running_time).settled(),
            self.received(settings, data, running_time).accepted() == self.accepted(),
    {
        let opened = self.fed(data, running_time).opened();
        if opened.header_seen {
            opened.lemma_spliced(settings);
        }
    }

    /// What holds between any two calls holds after the end of the stream.
    pub proof fn lemma_finished_settled(self, policy: LatePolicy)
        requires
            self.settled(),
        ensures
            self.finished(policy).settled(),
            self.finished(policy).accepted() == self.accepted(),
    {
        if let Some(origin) = self.origin {
            lemma_cues_are_partitioned(self.pending, origin, self.position_ms, policy);
        }
    }
}

/// How many cues of an ordered queue are not after `running_time`.
pub open spec fn split_point(cues: Seq<QueuedCue>, running_time: nat) -> int
    decreases cues.len(),
{
    if cues.len() == 0 || cues.last().running_time <= running_time {
        cues.len() as int
    } else {
        split_point(cues.drop_last(), running_time)
    }
}

/// In an ordered queue, the cues before the split point are those that are not
/// after `running_time`.
pub proof fn lemma_split_point(cues: Seq<QueuedCue>, running_time: nat)
    requires
        ordered(cues),
    ensures
        0 <= split_point(cues, running_time) <= cues.len(),
        forall|i: int|
            0 <= i < split_point(cues, running_time) ==> (#[trigger] cues[i]).running_time
                <= running_time,
        forall|i: int|
            split_point(cues, running_time) <= i < cues.len() ==> (#[trigger] cues[i]).running_time
                > running_time,
    decreases cues.len(),
{
    if cues.len() > 0 && cues.last().running_time > running_time {
        let shorter = cues.drop_last();
        lemma_split_point(shorter, running_time);
        assert forall|i: int| 0 <= i < split_point(cues, running_time) implies (
        #[trigger] cues[i]).running_time <= running_time by {
            assert(shorter[i] == cues[i]);
        }
        assert forall|i: int| split_point(cues, running_time) <= i < cues.len() implies (
        #[trigger] cues[i]).running_time > running_time by {
            if i < shorter.len() {
                assert(shorter[i] == cues[i]);
            }
        }
    }
}

} // verus!
