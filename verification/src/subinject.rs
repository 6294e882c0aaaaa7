//! The injector: takes cues from a text pad and FLV bytes from a muxer, and
//! splices each cue into the byte stream as a tag of its own.
//!
//! The injector is deliberately narrow. It does not wrap text, does not decide
//! when a caption is complete and does not clear the display on silence. It
//! turns a timestamped string into a correctly framed tag at the right point
//! in a byte stream. A cue whose text is empty goes out like any other: it is
//! how whoever makes the cues clears the display.

use vstd::prelude::*;

use crate::amf::{script_data_body, MessageName};
use crate::flv::{
    parse_tag_header, push_all, script_data_tag, TagHeader, FILE_HEADER_LEN,
    MAXIMUM_TIMESTAMP_MS,
};
use crate::settings::{LatePolicy, PropertyValue, Settings};
use crate::timeline::{Piece, QueuedCue, Timeline, NANOSECONDS_PER_MILLISECOND};

verus! {

/// The contents of a list of buffers.
pub open spec fn contents(buffers: Seq<Vec<u8>>) -> Seq<Seq<u8>> {
    buffers.map_values(|buffer: Vec<u8>| buffer@)
}

/// A cue waiting for the FLV stream to reach its timestamp.
struct PendingCue {
    running_time: u64,
    text: String,
}

impl View for PendingCue {
    type V = QueuedCue;

    closed spec fn view(&self) -> QueuedCue {
        QueuedCue { running_time: self.running_time as nat, text: self.text@ }
    }
}

spec fn cues(pending: Seq<PendingCue>) -> Seq<QueuedCue> {
    pending.map_values(|cue: PendingCue| cue@)
}

spec fn as_nat(value: Option<u64>) -> Option<nat> {
    match value {
        Some(value) => Some(value as nat),
        None => None,
    }
}

struct State {
    /// Cues not yet written, ordered by running time.
    pending: Vec<PendingCue>,
    /// Bytes of a partially received tag, carried between buffers.
    ///
    /// Muxers emit whole tags, but nothing guarantees that a buffer boundary
    /// falls on one. Splicing mid-tag would corrupt the stream, so partial tags
    /// are held.
    partial: Vec<u8>,
    /// Whether the start of the stream is behind.
    header_seen: bool,
    /// Millisecond timestamp of the most recent tag forwarded.
    stream_position_ms: u32,
    /// Running time of the first A/V buffer, used to rebase cue timestamps.
    ///
    /// The muxer writes tag timestamps relative to its own first timestamp,
    /// while cues carry pipeline running time.
    origin: Option<u64>,
    /// Cues written, for diagnostics.
    written: u64,
    /// Cues discarded under [`LatePolicy::Drop`].
    dropped: u64,
    /// Whether the priming cue has been written.
    primed: bool,
}

impl View for State {
    type V = Timeline;

    closed spec fn view(&self) -> Timeline {
        Timeline {
            pending: cues(self.pending@),
            partial: self.partial@,
            header_seen: self.header_seen,
            position_ms: self.stream_position_ms as nat,
            origin: as_nat(self.origin),
            written: self.written as nat,
            dropped: self.dropped as nat,
            primed: self.primed,
        }
    }
}

impl Default for State {
    fn default() -> (state: Self)
        ensures
            state@ == Timeline::initial(),
    {
        let state = State {
            pending: Vec::new(),
            partial: Vec::new(),
            header_seen: false,
            stream_position_ms: 0,
            origin: None,
            written: 0,
            dropped: 0,
            primed: false,
        };
        assert(state@.pending =~= Timeline::initial().pending);
        state
    }
}

/// Splices cues into an FLV stream.
pub struct FlvSubInject {
    settings: Settings,
    state: State,
}

impl FlvSubInject {
    /// What is set.
    pub closed spec fn settings(&self) -> Settings {
        self.settings
    }

    /// What is remembered of the stream.
    pub closed spec fn timeline(&self) -> Timeline {
        self.state@
    }

    /// The message that cues go out as.
    pub open spec fn message_name(&self) -> MessageName {
        crate::settings::message_name_of(self.settings().message_name)
    }

    /// An injector with the default settings that has received nothing.
    pub fn new() -> (injector: Self)
        ensures
            injector.settings() == Settings::initial(),
            injector.timeline() == Timeline::initial(),
            injector.timeline().wf(),
    {
        FlvSubInject { settings: Settings::default(), state: State::default() }
    }
}

/// Where a cue belongs on the muxer's clock.
fn cue_timestamp(origin: u64, running_time: u64) -> (timestamp_ms: u64)
    ensures
        timestamp_ms == crate::timeline::cue_ms(origin as nat, running_time as nat),
        timestamp_ms <= MAXIMUM_TIMESTAMP_MS,
        running_time <= origin ==> timestamp_ms == 0,
        running_time > origin && timestamp_ms < 0xffff_ffff ==> timestamp_ms * 1_000_000
            <= running_time - origin < (timestamp_ms + 1) * 1_000_000,
        timestamp_ms == 0xffff_ffff ==> 0xffff_ffff * 1_000_000 <= running_time - origin,
{
    let timestamp_ms: u64 = running_time.saturating_sub(origin) / NANOSECONDS_PER_MILLISECOND;
    if timestamp_ms > MAXIMUM_TIMESTAMP_MS {
        MAXIMUM_TIMESTAMP_MS
    } else {
        timestamp_ms
    }
}

/// Frames a cue as a tag.
fn cue_tag(name: MessageName, timestamp_ms: u32, text: &str) -> (tag: Vec<u8>)
    ensures
        tag@ == crate::timeline::cue_tag(name, timestamp_ms as nat, text@),
{
    let body = script_data_body(name, text);
    proof {
        crate::amf::lemma_body_fits(name, text@);
    }
    script_data_tag(timestamp_ms, body.as_slice())
}

/// One more element is filtered.
proof fn lemma_filter_step<A>(s: Seq<A>, at: int, pred: spec_fn(A) -> bool)
    requires
        0 <= at < s.len(),
    ensures
        s.take(at + 1).filter(pred) == if pred(s[at]) {
            s.take(at).filter(pred).push(s[at])
        } else {
            s.take(at).filter(pred)
        },
{
    assert(s.take(at + 1) =~= s.take(at).push(s[at]));
    s.take(at).lemma_filter_push(s[at], pred);
}

/// Cues that a drain leaves queued: those ahead of the stream, and at its end
/// none.
spec fn staying(origin: nat, position_ms: nat, at_end: bool) -> spec_fn(QueuedCue) -> bool {
    |cue: QueuedCue| !at_end && crate::timeline::waiting(origin, position_ms)(cue)
}

/// Cues that a drain writes: those that neither stay nor are given up.
spec fn going(
    origin: nat,
    position_ms: nat,
    policy: LatePolicy,
    at_end: bool,
) -> spec_fn(QueuedCue) -> bool {
    |cue: QueuedCue|
        !staying(origin, position_ms, at_end)(cue) && !crate::timeline::late(
            origin,
            position_ms,
            policy,
        )(cue)
}

/// While the stream goes on, a drain writes what is ready, and all of it at the
/// stream position.
proof fn lemma_drain_on_the_way(
    queue: Seq<QueuedCue>,
    origin: nat,
    position_ms: nat,
    policy: LatePolicy,
)
    ensures
        queue.filter(staying(origin, position_ms, false)) == queue.filter(
            crate::timeline::waiting(origin, position_ms),
        ),
        queue.filter(going(origin, position_ms, policy, false)) == queue.filter(
            crate::timeline::ready(origin, position_ms, policy),
        ),
        queue.filter(crate::timeline::ready(origin, position_ms, policy)).map_values(
            crate::timeline::at_own_time(origin, position_ms),
        ) == queue.filter(crate::timeline::ready(origin, position_ms, policy)).map_values(
            crate::timeline::at_position(position_ms),
        ),
{
    let out = crate::timeline::ready(origin, position_ms, policy);
    assert(staying(origin, position_ms, false) =~= crate::timeline::waiting(origin, position_ms));
    assert(going(origin, position_ms, policy, false) =~= out);
    assert forall|i: int| 0 <= i < queue.filter(out).len() implies out(
        #[trigger] queue.filter(out)[i],
    ) by {
        queue.lemma_filter_pred(out, i);
    }
    assert(queue.filter(out).map_values(crate::timeline::at_own_time(origin, position_ms))
        =~= queue.filter(out).map_values(crate::timeline::at_position(position_ms)));
}

/// At the end of the stream, a drain writes all that is kept.
proof fn lemma_drain_at_the_end(
    queue: Seq<QueuedCue>,
    origin: nat,
    position_ms: nat,
    policy: LatePolicy,
)
    ensures
        queue.filter(staying(origin, position_ms, true)) == Seq::<QueuedCue>::empty(),
        queue.filter(going(origin, position_ms, policy, true)) == queue.filter(
            crate::timeline::kept(origin, position_ms, policy),
        ),
{
    assert(going(origin, position_ms, policy, true) =~= crate::timeline::kept(
        origin,
        position_ms,
        policy,
    ));
    queue.lemma_all_neg_filter_empty(staying(origin, position_ms, true));
}

impl FlvSubInject {
    /// Serializes every queued cue that is due: those that the stream position
    /// has reached, and at the end of the stream those ahead of it too.
    fn drain(&mut self, origin: u64, at_end: bool) -> (tags: Vec<Vec<u8>>)
        requires
            old(self).timeline().accepted() <= u64::MAX,
            old(self).timeline().origin == Some(origin as nat),
        ensures
            final(self).settings() == old(self).settings(),
            ({
                let before = old(self).timeline();
                let policy = old(self).settings().late_policy;
                let position_ms = before.position_ms;
                let written = before.pending.filter(
                    going(origin as nat, position_ms, policy, at_end),
                );
                &&& final(self).timeline() == (Timeline {
                    pending: before.pending.filter(staying(origin as nat, position_ms, at_end)),
                    written: before.written + written.len(),
                    dropped: before.dropped + before.pending.filter(
                        crate::timeline::late(origin as nat, position_ms, policy),
                    ).len(),
                    ..before
                })
                &&& contents(tags@) == crate::timeline::encoded(
                    written.map_values(crate::timeline::at_own_time(origin as nat, position_ms)),
                    old(self).message_name(),
                )
            }),
    {
        let name = MessageName::from(self.settings.message_name);
        let policy = self.settings.late_policy;
        let position_ms: u64 = self.state.stream_position_ms as u64;
        let mut pending: Vec<PendingCue> = Vec::new();
        std::mem::swap(&mut pending, &mut self.state.pending);
        let ghost before = old(self).timeline();
        let ghost queue = before.pending;
        let ghost held = pending@;
        let ghost stays = staying(origin as nat, position_ms as nat, at_end);
        let ghost out = going(origin as nat, position_ms as nat, policy, at_end);
        let ghost lost = crate::timeline::late(origin as nat, position_ms as nat, policy);
        let ghost piece = crate::timeline::at_own_time(origin as nat, position_ms as nat);
        let mut tags: Vec<Vec<u8>> = Vec::new();
        let mut remaining: Vec<PendingCue> = Vec::new();
        proof {
            reveal(Seq::filter);
            assert(queue.take(0) =~= Seq::<QueuedCue>::empty());
            assert(queue.take(0).filter(stays) =~= cues(remaining@));
            assert(contents(tags@) =~= crate::timeline::encoded(
                queue.take(0).filter(out).map_values(piece),
                name,
            ));
        }
        for cue in it: pending
            invariant
                it.seq() == held,
                queue == cues(held),
                before.pending == queue,
                before.accepted() <= u64::MAX,
                position_ms == self.state.stream_position_ms,
                stays == staying(origin as nat, position_ms as nat, at_end),
                out == going(origin as nat, position_ms as nat, policy, at_end),
                lost == crate::timeline::late(origin as nat, position_ms as nat, policy),
                piece == crate::timeline::at_own_time(origin as nat, position_ms as nat),
                self.settings == old(self).settings,
                self.state.partial == old(self).state.partial,
                self.state.header_seen == old(self).state.header_seen,
                self.state.stream_position_ms == old(self).state.stream_position_ms,
                self.state.origin == old(self).state.origin,
                self.state.primed == old(self).state.primed,
                cues(remaining@) == queue.take(it.index()).filter(stays),
                contents(tags@) == crate::timeline::encoded(
                    queue.take(it.index()).filter(out).map_values(piece),
                    name,
                ),
                self.state.written == before.written + queue.take(it.index()).filter(out).len(),
                self.state.dropped == before.dropped + queue.take(it.index()).filter(lost).len(),
                queue.take(it.index()).filter(out).len() + queue.take(it.index()).filter(lost).len()
                    <= it.index(),
        {
            let ghost at = it.index();
            proof {
                assert(queue[at] == cue@);
                lemma_filter_step(queue, at, stays);
                lemma_filter_step(queue, at, out);
                lemma_filter_step(queue, at, lost);
            }
            let cue_ms: u64 = cue_timestamp(origin, cue.running_time);
            if cue_ms > position_ms && !at_end {
                remaining.push(cue);
                assert(cues(remaining@) =~= queue.take(at).filter(stays).push(queue[at]));
            } else if cue_ms < position_ms && policy == LatePolicy::Drop {
                self.state.dropped = self.state.dropped + 1;
            } else {
                // A cue that the stream is past moves to where the stream is.
                let timestamp_ms: u64 = if cue_ms < position_ms {
                    position_ms
                } else {
                    cue_ms
                };
                let ghost tags_before = tags@;
                let ghost out_before = queue.take(at).filter(out);
                tags.push(cue_tag(name, timestamp_ms as u32, cue.text.as_str()));
                self.state.written = self.state.written + 1;
                proof {
                    assert(out_before.push(queue[at]).map_values(piece)
                        =~= out_before.map_values(piece).push(piece(queue[at])));
                    assert(contents(tags@) =~= contents(tags_before).push(
                        piece(queue[at]).bytes(name),
                    ));
                    assert(contents(tags@) =~= crate::timeline::encoded(
                        queue.take(at + 1).filter(out).map_values(piece),
                        name,
                    ));
                }
            }
        }
        assert(queue.take(queue.len() as int) =~= queue);
        self.state.pending = remaining;
        tags
    }

    /// Serializes every queued cue the stream position has reached.
    fn drain_ready(&mut self) -> (tags: Vec<Vec<u8>>)
        requires
            old(self).timeline().accepted() <= u64::MAX,
        ensures
            final(self).settings() == old(self).settings(),
            final(self).timeline() == old(self).timeline().drained(
                old(self).settings().late_policy,
            ),
            contents(tags@) == crate::timeline::encoded(
                old(self).timeline().drained_pieces(old(self).settings().late_policy),
                old(self).message_name(),
            ),
    {
        match self.state.origin {
            Some(origin) => {
                proof {
                    lemma_drain_on_the_way(
                        self.timeline().pending,
                        origin as nat,
                        self.timeline().position_ms,
                        self.settings().late_policy,
                    );
                }
                self.drain(origin, false)
            },
            None => no_tags(Ghost(self.message_name())),
        }
    }

    /// Serializes every queued cue at the end of the stream: one that the
    /// stream is past follows the late policy, and one ahead of the stream goes
    /// out at its own time.
    ///
    /// Nothing goes out before the start of the stream is behind, and nothing
    /// while the cues' clock is not tied to the muxer's.
    fn drain_all(&mut self) -> (tags: Vec<Vec<u8>>)
        requires
            old(self).timeline().wf(),
        ensures
            final(self).timeline().wf(),
            final(self).settings() == old(self).settings(),
            final(self).timeline() == old(self).timeline().finished(
                old(self).settings().late_policy,
            ),
            contents(tags@) == crate::timeline::encoded(
                old(self).timeline().finished_pieces(old(self).settings().late_policy),
                old(self).message_name(),
            ),
    {
        if !self.state.header_seen {
            return no_tags(Ghost(self.message_name()));
        }
        match self.state.origin {
            Some(origin) => {
                proof {
                    self.timeline().lemma_finished_settled(self.settings().late_policy);
                    lemma_drain_at_the_end(
                        self.timeline().pending,
                        origin as nat,
                        self.timeline().position_ms,
                        self.settings().late_policy,
                    );
                }
                self.drain(origin, true)
            },
            None => no_tags(Ghost(self.message_name())),
        }
    }
}

/// Nothing to write.
fn no_tags(Ghost(name): Ghost<MessageName>) -> (tags: Vec<Vec<u8>>)
    ensures
        contents(tags@) == crate::timeline::encoded(Seq::<Piece>::empty(), name),
{
    let tags: Vec<Vec<u8>> = Vec::new();
    assert(contents(tags@) =~= crate::timeline::encoded(Seq::<Piece>::empty(), name));
    tags
}

/// What became of a text buffer.
#[derive(Clone, Copy, Debug, PartialEq, Eq, Structural)]
pub enum Admission {
    /// Its text waits to be written.
    Queued,
    /// It came without a timestamp and was ignored.
    MissingTimestamp,
    /// It does not hold UTF-8 and was ignored.
    NotUtf8,
}

/// Calls `std::str::from_utf8`: the string whose UTF-8 encoding `bytes` are, or
/// `None` where they are not valid UTF-8.
#[verifier::external_body]
fn decode_text(bytes: &[u8]) -> (text: Option<&str>)
    ensures
        text is Some <==> vstd::utf8::valid_utf8(bytes@),
        text matches Some(text) ==> vstd::utf8::encode_utf8(text@) == bytes@,
{
    match std::str::from_utf8(bytes) {
        Ok(text) => Some(text),
        Err(_) => None,
    }
}

/// The running time of a buffer: what the segment of its pad makes of its
/// timestamp, or the timestamp itself where no segment converts it.
pub open spec fn running_time_of(pts: u64, segment_time: Option<u64>) -> u64 {
    match segment_time {
        Some(time) => time,
        None => pts,
    }
}

impl State {
    /// The running time of a buffer.
    fn running_time(segment_time: Option<u64>, pts: u64) -> (time: u64)
        ensures
            time == running_time_of(pts, segment_time),
    {
        segment_time.unwrap_or(pts)
    }
}

impl FlvSubInject {
    /// Whether one more cue can be counted.
    pub fn has_room(&self) -> (room: bool)
        requires
            self.timeline().wf(),
        ensures
            room == (self.timeline().accepted() < u64::MAX),
    {
        let free: u64 = u64::MAX - self.state.written - self.state.dropped;
        assert(self.timeline().pending.len() == self.state.pending@.len());
        (self.state.pending.len() as u64) < free
    }

    /// Accepts a cue from the text pad: the text `data` at `pts`, which the
    /// pad's segment converts to `segment_time`.
    ///
    /// This only ever queues. Text and FLV bytes arrive on different threads,
    /// and a tag pushed from here could land in the middle of another tag's
    /// body.
    pub fn handle_text_buffer(
        &mut self,
        data: &[u8],
        pts: Option<u64>,
        segment_time: Option<u64>,
    ) -> (admission: Admission)
        requires
            old(self).timeline().wf(),
            old(self).timeline().accepted() < u64::MAX,
        ensures
            final(self).timeline().wf(),
            final(self).settings() == old(self).settings(),
            admission == match pts {
                None => Admission::MissingTimestamp,
                Some(_) => if vstd::utf8::valid_utf8(data@) {
                    Admission::Queued
                } else {
                    Admission::NotUtf8
                },
            },
            admission is Queued ==> final(self).timeline() == old(self).timeline().queued(
                (QueuedCue {
                    running_time: running_time_of(pts->0, segment_time) as nat,
                    text: vstd::utf8::decode_utf8(data@),
                }),
            ),
            admission !is Queued ==> final(self).timeline() == old(self).timeline(),
            admission is Queued && segment_time is Some ==> final(self).timeline() == old(
                self,
            ).timeline().queued(
                (QueuedCue {
                    running_time: segment_time->0 as nat,
                    text: vstd::utf8::decode_utf8(data@),
                }),
            ),
            admission is Queued && segment_time is None ==> final(self).timeline() == old(
                self,
            ).timeline().queued(
                (QueuedCue {
                    running_time: pts->0 as nat,
                    text: vstd::utf8::decode_utf8(data@),
                }),
            ),
    {
        let pts: u64 = match pts {
            Some(pts) => pts,
            None => {
                return Admission::MissingTimestamp;
            },
        };
        let text = match decode_text(data) {
            Some(text) => {
                proof {
                    vstd::utf8::encode_utf8_decode_utf8(text@);
                }
                text.to_owned()
            },
            None => {
                return Admission::NotUtf8;
            },
        };
        let running_time: u64 = State::running_time(segment_time, pts);
        self.queue(PendingCue { running_time, text });
        Admission::Queued
    }

    /// Puts a cue behind those of the same running time or an earlier one.
    fn queue(&mut self, cue: PendingCue)
        requires
            old(self).timeline().wf(),
            old(self).timeline().accepted() < u64::MAX,
        ensures
            final(self).timeline().wf(),
            final(self).settings() == old(self).settings(),
            final(self).timeline() == old(self).timeline().queued(cue@),
    {
        let ghost before = self.timeline();
        let ghost queue = before.pending;
        let mut at: usize = self.state.pending.len();
        while at > 0 && self.state.pending[at - 1].running_time > cue.running_time
            invariant
                at <= self.state.pending@.len(),
                queue == cues(self.state.pending@),
                forall|i: int|
                    at <= i < queue.len() ==> (#[trigger] queue[i]).running_time
                        > cue.running_time,
            decreases at,
        {
            at -= 1;
            assert(queue[at as int] == self.state.pending@[at as int]@);
        }
        proof {
            if at > 0 {
                assert(queue[at - 1] == self.state.pending@[at - 1]@);
            }
            crate::timeline::lemma_queue_splits(queue, at as int, cue.running_time as nat);
            before.lemma_queued(cue@);
        }
        let ghost held = self.state.pending@;
        let ghost added = cue;
        self.state.pending.insert(at, cue);
        proof {
            assert(cues(self.state.pending@) =~= queue.take(at as int).push(added@) + queue.skip(
                at as int,
            ));
        }
    }

    /// Accepts bytes of the muxer, and returns the buffers that are ready to go
    /// out: every tag that is complete, each behind the cues due before it.
    /// `pts` is the timestamp of the buffer, which the pad's segment converts
    /// to `segment_time`.
    ///
    /// Headers and metadata come without a timestamp. The first buffer that has
    /// one ties the cues' clock to the muxer's.
    #[verifier::spinoff_prover]
    #[verifier::rlimit(50)]
    pub fn handle_flv_buffer(
        &mut self,
        data: &[u8],
        pts: Option<u64>,
        segment_time: Option<u64>,
    ) -> (output: Vec<Vec<u8>>)
        requires
            old(self).timeline().wf(),
        ensures
            final(self).timeline().wf(),
            final(self).settings() == old(self).settings(),
            final(self).timeline() == old(self).timeline().received(
                old(self).settings(),
                data@,
                stream_time(pts, segment_time),
            ),
            contents(output@) == crate::timeline::encoded(
                old(self).timeline().received_pieces(
                    old(self).settings(),
                    data@,
                    stream_time(pts, segment_time),
                ),
                old(self).message_name(),
            ),
            final(self).timeline().origin == match (old(self).timeline().origin, pts, segment_time) {
                (Some(origin), _, _) => Some(origin),
                (None, Some(_), Some(time)) => Some(time as nat),
                (None, Some(pts), None) => Some(pts as nat),
                (None, None, _) => None,
            },
            ({
                let held = old(self).timeline().partial + data@;
                !old(self).timeline().header_seen && held.len() >= 13 && held[0] == 0x46 && held[1]
                    == 0x4c && held[2] == 0x56 ==> output@.len() > 0 && output@[0]@ == held.take(13)
            }),
    {
        let ghost settings = self.settings;
        let ghost before = self.timeline();
        let ghost time = stream_time(pts, segment_time);
        proof {
            crate::laws::lemma_spliced_keeps_origin(before.fed(data@, time).opened(), settings);
            before.lemma_received_settled(settings, data@, time);
        }
        push_all(&mut self.state.partial, data);
        if self.state.origin.is_none() {
            if let Some(pts) = pts {
                self.state.origin = Some(State::running_time(segment_time, pts));
            }
        }
        let ghost fed = before.fed(data@, time);
        assert(self.timeline() == fed);
        let name = MessageName::from(self.settings.message_name);
        let mut output: Vec<Vec<u8>> = Vec::new();
        let mut consumed: usize = 0;
        assert(contents(output@) =~= crate::timeline::encoded(Seq::<Piece>::empty(), name));
        if !self.state.header_seen {
            if self.state.partial.len() < FILE_HEADER_LEN {
                return output;
            }
            if self.state.partial[0] == 0x46 && self.state.partial[1] == 0x4c
                && self.state.partial[2] == 0x56 {
                output.push(copy_range(&self.state.partial, 0, FILE_HEADER_LEN));
                consumed = FILE_HEADER_LEN;
                assert(contents(output@) =~= crate::timeline::encoded(fed.opened_pieces(), name));
            }
            self.state.header_seen = true;
        }
        let ghost opened = fed.opened();
        let ghost whole = self.state.partial@;
        let ghost mut rest = opened;
        let ghost mut pieces = fed.opened_pieces();
        proof {
            assert(whole.skip(0) =~= whole);
            assert(self.ahead(consumed as int) == rest);
            assert(pieces + rest.spliced_pieces(settings) =~= before.received_pieces(
                settings,
                data@,
                time,
            ));
        }
        loop
            invariant
                whole == self.state.partial@,
                consumed <= whole.len(),
                settings == self.settings,
                name == crate::settings::message_name_of(settings.message_name),
                rest == self.ahead(consumed as int),
                rest.in_order(),
                rest.accepted() <= u64::MAX,
                rest.spliced(settings) == before.received(settings, data@, time),
                pieces + rest.spliced_pieces(settings) == before.received_pieces(
                    settings,
                    data@,
                    time,
                ),
                contents(output@) == crate::timeline::encoded(pieces, name),
            ensures
                !crate::flv::starts_with_tag(whole.skip(consumed as int)),
            decreases whole.len() - consumed,
        {
            let header = match parse_tag_header(
                vstd::slice::slice_subrange(
                    self.state.partial.as_slice(),
                    consumed,
                    self.state.partial.len(),
                ),
            ) {
                Some(header) => header,
                None => {
                    break;
                },
            };
            assert(whole.subrange(consumed as int, whole.len() as int) =~= rest.partial);
            let total: usize = header.total_len();
            if self.state.partial.len() - consumed < total {
                break;
            }
            self.forward_tag(header, consumed, &mut output);
            consumed = consumed + total;
            proof {
                crate::timeline::lemma_encoded_concat(
                    pieces,
                    rest.advanced_pieces(settings),
                    name,
                );
                let passed = pieces + rest.advanced_pieces(settings);
                assert(passed + rest.advanced(settings).spliced_pieces(settings) =~= pieces
                    + rest.spliced_pieces(settings));
                rest.arrived(settings).lemma_drained(settings.late_policy);
                pieces = passed;
                rest = rest.advanced(settings);
            }
        }
        assert(pieces + Seq::<Piece>::empty() =~= pieces);
        let unread = self.state.partial.split_off(consumed);
        self.state.partial = unread;
        assert(whole.subrange(consumed as int, whole.len() as int) =~= rest.partial);
        proof {
            if fed.opened_pieces().len() > 0 {
                let sent = before.received_pieces(settings, data@, time);
                assert(sent[0] == fed.opened_pieces()[0]);
                assert(contents(output@)[0] == sent[0].bytes(name));
            }
        }
        output
    }

    /// Appends to `output` what goes out with the tag at `consumed`: the cues
    /// due before it, so that the output stays ordered by timestamp, and the
    /// tag.
    #[verifier::spinoff_prover]
    #[verifier::rlimit(50)]
    fn forward_tag(&mut self, header: TagHeader, consumed: usize, output: &mut Vec<Vec<u8>>)
        requires
            consumed <= old(self).state.partial@.len(),
            crate::flv::starts_with_tag(old(self).ahead(consumed as int).partial),
            header == crate::flv::tag_header(old(self).ahead(consumed as int).partial),
            old(self).timeline().accepted() <= u64::MAX,
            header.tag_len() <= usize::MAX,
        ensures
            final(self).settings == old(self).settings,
            final(self).state.partial@ == old(self).state.partial@,
            final(self).ahead(consumed + header.tag_len()) == old(self).ahead(
                consumed as int,
            ).advanced(old(self).settings),
            contents(final(output)@) == contents(old(output)@) + crate::timeline::encoded(
                old(self).ahead(consumed as int).advanced_pieces(old(self).settings),
                old(self).message_name(),
            ),
    {
        let ghost settings = self.settings;
        let ghost rest = self.ahead(consumed as int);
        let name = MessageName::from(self.settings.message_name);
        let total: usize = header.total_len();
        let ghost whole = self.state.partial@;
        self.state.stream_position_ms = header.timestamp_ms;
        // A script-data subtitle stream exists for a reader only once its first
        // cue has been seen. One invisible cue at the head of the stream
        // declares it, long before any caption text exists.
        if self.settings.prime && !self.state.primed {
            output.push(cue_tag(name, header.timestamp_ms, "\u{200b}"));
            self.state.primed = true;
        }
        let ghost priming = rest.priming_pieces(settings);
        let ghost cues = rest.arrived(settings).drained_pieces(settings.late_policy);
        assert(contents(output@) =~= contents(old(output)@) + crate::timeline::encoded(
            priming,
            name,
        ));
        assert(self.ahead(consumed as int) == rest.arrived(settings));
        let mut ready = self.drain_ready();
        assert(contents(ready@) == crate::timeline::encoded(cues, name));
        let ghost output_before = output@;
        let ghost ready_before = ready@;
        output.append(&mut ready);
        assert(contents(output@) =~= contents(output_before) + contents(ready_before));
        let ghost output_with_cues = output@;
        assert(self.state.partial@ == self.timeline().partial);
        assert(consumed + total <= self.state.partial.len());
        output.push(copy_range(&self.state.partial, consumed, consumed + total));
        proof {
            let tag = Piece::Passed(rest.partial.take(total as int));
            assert(rest.partial.take(total as int) =~= whole.subrange(
                consumed as int,
                consumed + total,
            ));
            assert(rest.partial.skip(total as int) =~= whole.skip(consumed + total));
            assert(contents(output@) =~= contents(output_with_cues).push(tag.bytes(name)));
            assert(crate::timeline::encoded(seq![tag], name) =~= seq![tag.bytes(name)]);
            crate::timeline::lemma_encoded_concat(priming, cues, name);
            crate::timeline::lemma_encoded_concat(priming + cues, seq![tag], name);
        }
    }

    /// The timeline with the first `consumed` bytes of what is held passed on.
    spec fn ahead(&self, consumed: int) -> Timeline {
        Timeline { partial: self.state.partial@.skip(consumed), ..self.timeline() }
    }
}

/// The running time that a buffer gives the stream, if it has one.
pub open spec fn stream_time(pts: Option<u64>, segment_time: Option<u64>) -> Option<nat> {
    match pts {
        Some(pts) => Some(running_time_of(pts, segment_time) as nat),
        None => None,
    }
}

/// A copy of the bytes from `from` up to `to`.
fn copy_range(bytes: &Vec<u8>, from: usize, to: usize) -> (copy: Vec<u8>)
    requires
        from <= to <= bytes@.len(),
    ensures
        copy@ == bytes@.subrange(from as int, to as int),
{
    vstd::slice::slice_to_vec(vstd::slice::slice_subrange(bytes.as_slice(), from, to))
}

/// An event on one of the pads, as far as the injector tells events apart.
#[derive(Clone, Copy, Debug, PartialEq, Eq, Structural)]
pub enum PadEvent {
    /// A new segment, in time or in another format.
    Segment { in_time: bool },
    StreamStart,
    Caps,
    Gap,
    Eos,
    FlushStart,
    FlushStop,
    Other,
}

/// What happens to the segment that is kept for a pad.
#[derive(Clone, Copy, Debug, PartialEq, Eq, Structural)]
pub enum SegmentChange {
    /// It stays.
    Keep,
    /// The one that has just come takes its place.
    Replace,
    /// It belongs to a stream that is over.
    Forget,
}

/// What an event asks for.
pub struct EventOutcome {
    /// What happens to the segment that is kept for the pad.
    pub segment: SegmentChange,
    /// Buffers that go out before anything else.
    pub output: Vec<Vec<u8>>,
    /// Whether the event travels on to the source pad.
    pub forward: bool,
}

/// What an event on a pad does to the segment kept for that pad.
pub open spec fn segment_change(event: PadEvent) -> SegmentChange {
    match event {
        PadEvent::Segment { in_time: true } => SegmentChange::Replace,
        _ => SegmentChange::Keep,
    }
}

/// A transition of the element's state.
#[derive(Clone, Copy, Debug, PartialEq, Eq, Structural)]
pub enum Transition {
    ReadyToPaused,
    PausedToReady,
    Other,
}

/// How many cues went which way.
#[derive(Clone, Copy, Debug, PartialEq, Eq, Structural)]
pub struct Tally {
    pub written: u64,
    pub dropped: u64,
    pub queued: usize,
}

impl FlvSubInject {
    /// Handles an event on the FLV pad. Every event travels on. At the end of
    /// the stream the cues still queued go out first. A flush discards queued
    /// cues and everything else that belongs to the timeline flushed. What has
    /// been counted stays counted, and a subtitle stream that has been declared
    /// is not declared again.
    pub fn handle_flv_event(&mut self, event: PadEvent) -> (outcome: EventOutcome)
        requires
            old(self).timeline().wf(),
        ensures
            final(self).timeline().wf(),
            final(self).settings() == old(self).settings(),
            outcome.forward,
            outcome.segment == segment_change(event),
            event is Eos ==> {
                &&& final(self).timeline() == old(self).timeline().finished(
                    old(self).settings().late_policy,
                )
                &&& contents(outcome.output@) == crate::timeline::encoded(
                    old(self).timeline().finished_pieces(old(self).settings().late_policy),
                    old(self).message_name(),
                )
            },
            event is FlushStop ==> final(self).timeline() == old(self).timeline().flushed(),
            event !is Eos ==> outcome.output@.len() == 0,
            event !is Eos && event !is FlushStop ==> final(self).timeline() == old(
                self,
            ).timeline(),
    {
        match event {
            PadEvent::Segment { in_time: true } => EventOutcome {
                segment: SegmentChange::Replace,
                output: Vec::new(),
                forward: true,
            },
            PadEvent::Eos => {
                let output = self.drain_all();
                EventOutcome { segment: SegmentChange::Keep, output, forward: true }
            },
            PadEvent::FlushStop => {
                self.flush();
                EventOutcome { segment: SegmentChange::Keep, output: Vec::new(), forward: true }
            },
            _ => EventOutcome { segment: SegmentChange::Keep, output: Vec::new(), forward: true },
        }
    }

    /// Forgets the timeline.
    fn flush(&mut self)
        requires
            old(self).timeline().wf(),
        ensures
            final(self).timeline().wf(),
            final(self).settings() == old(self).settings(),
            final(self).timeline() == old(self).timeline().flushed(),
    {
        self.state = State {
            written: self.state.written,
            dropped: self.state.dropped,
            primed: self.state.primed,
            ..State::default()
        };
    }

    /// Handles an event on the text pad. None of them travels on: the output is
    /// FLV, and text caps or the end of a sparse text stream must not reach a
    /// source pad where A/V still flows.
    pub fn handle_text_event(&self, event: PadEvent) -> (outcome: EventOutcome)
        ensures
            !outcome.forward,
            outcome.segment == segment_change(event),
            outcome.output@.len() == 0,
    {
        let segment = match event {
            PadEvent::Segment { in_time: true } => SegmentChange::Replace,
            _ => SegmentChange::Keep,
        };
        EventOutcome { segment, output: Vec::new(), forward: false }
    }

    /// Handles a transition that is about to happen, and returns what happens to
    /// the segments of both pads: a stream starts from nothing.
    pub fn change_state(&mut self, transition: Transition) -> (segments: SegmentChange)
        requires
            old(self).timeline().wf(),
        ensures
            final(self).timeline().wf(),
            final(self).settings() == old(self).settings(),
            transition is ReadyToPaused ==> final(self).timeline() == Timeline::initial()
                && segments is Forget,
            transition !is ReadyToPaused ==> final(self).timeline() == old(self).timeline()
                && segments is Keep,
    {
        if transition == Transition::ReadyToPaused {
            self.state = State::default();
            SegmentChange::Forget
        } else {
            SegmentChange::Keep
        }
    }

    /// Counts the cues written, discarded and still queued.
    pub fn tally(&self) -> (tally: Tally)
        ensures
            tally.written == self.timeline().written,
            tally.dropped == self.timeline().dropped,
            tally.queued == self.timeline().pending.len(),
    {
        Tally {
            written: self.state.written,
            dropped: self.state.dropped,
            queued: self.state.pending.len(),
        }
    }

    /// Sets the property called `name`.
    pub fn set_property(&mut self, name: &str, value: PropertyValue)
        requires
            crate::settings::takes(name@, value),
        ensures
            final(self).settings() == old(self).settings().with(value),
            final(self).timeline() == old(self).timeline(),
    {
        self.settings.set_property(name, value);
    }

    /// Reads the property called `name`.
    pub fn property(&self, name: &str) -> (value: PropertyValue)
        requires
            crate::settings::is_property(name@),
        ensures
            value == self.settings().value_of(name@),
    {
        self.settings.property(name)
    }
}

} // verus!
