//! What happens to queued cues when the stream ends or is flushed.
//!
//! Both cases are invisible to an end-to-end caption count: a lost final cue
//! still leaves dozens of correct ones, and a flush mid-stream is rare. They
//! are asserted directly instead.

use flvsubinject::flv::{parse_tag_header, TAG_TYPE_SCRIPT_DATA};
use flvsubinject::settings::PropertyValue;
use flvsubinject::subinject::{Admission, FlvSubInject, PadEvent, SegmentChange};

/// Drives the injector pad by pad, so cue delivery can be sequenced against the
/// end of the stream precisely.
struct Harness {
    injector: FlvSubInject,
    collected: Vec<u8>,
}

impl Harness {
    fn new() -> Self {
        let mut injector = FlvSubInject::new();
        injector.set_property("prime", PropertyValue::Prime(false));
        Self { injector, collected: Vec::new() }
    }

    /// Pushes a minimal but well-formed FLV video tag at `millis`.
    fn push_flv_tag(&mut self, millis: u64) {
        let body = [0x17u8, 0x01, 0x00, 0x00, 0x00];
        let mut tag = vec![9u8];
        tag.extend_from_slice(&(body.len() as u32).to_be_bytes()[1..]);
        let timestamp = millis as u32;
        tag.extend_from_slice(&timestamp.to_be_bytes()[1..]);
        tag.push((timestamp >> 24) as u8);
        tag.extend_from_slice(&[0, 0, 0]);
        tag.extend_from_slice(&body);
        let total = (11 + body.len()) as u32;
        tag.extend_from_slice(&total.to_be_bytes());

        let pts = Some(millis * 1_000_000);
        for buffer in self.injector.handle_flv_buffer(&tag, pts, pts) {
            self.collected.extend_from_slice(&buffer);
        }
    }

    fn push_cue(&mut self, millis: u64, text: &str) {
        let pts = Some(millis * 1_000_000);
        assert!(self.injector.has_room());
        let admission = self.injector.handle_text_buffer(text.as_bytes(), pts, pts);
        assert_eq!(admission, Admission::Queued, "push cue");
    }

    fn push_event(&mut self, event: PadEvent) -> SegmentChange {
        let outcome = self.injector.handle_flv_event(event);
        assert!(outcome.forward);
        for buffer in outcome.output {
            self.collected.extend_from_slice(&buffer);
        }
        outcome.segment
    }

    /// Cue texts written so far, in order.
    ///
    /// The payloads rather than a count are what makes a flush assertion
    /// meaningful: the question is which cue survived, and a count cannot
    /// distinguish a stale cue from its replacement.
    fn cue_texts(&self) -> Vec<String> {
        let bytes = &self.collected;
        let mut cursor = 0usize;
        let mut texts = Vec::new();
        while let Some(header) = parse_tag_header(&bytes[cursor.min(bytes.len())..]) {
            if bytes.len() - cursor < header.total_len() {
                break;
            }
            if header.tag_type == TAG_TYPE_SCRIPT_DATA {
                let body = &bytes[cursor + 11..cursor + 11 + header.body_size];
                texts.push(extract_text(body));
            }
            cursor += header.total_len();
        }
        texts
    }

    fn script_tag_count(&self) -> usize {
        self.cue_texts().len()
    }
}

/// Pulls the `text` property out of a serialized script-data body.
fn extract_text(body: &[u8]) -> String {
    let mut cursor = 1usize;
    let name_len = u16::from_be_bytes([body[cursor], body[cursor + 1]]) as usize;
    cursor += 2 + name_len + 1 + 4;
    loop {
        if cursor + 2 > body.len() {
            return String::new();
        }
        let property_len = u16::from_be_bytes([body[cursor], body[cursor + 1]]) as usize;
        cursor += 2;
        if property_len == 0 {
            return String::new();
        }
        let property = String::from_utf8_lossy(&body[cursor..cursor + property_len]).into_owned();
        cursor += property_len;
        let kind = body[cursor];
        cursor += 1;
        if kind == 0x02 {
            let len = u16::from_be_bytes([body[cursor], body[cursor + 1]]) as usize;
            cursor += 2;
            let value = String::from_utf8_lossy(&body[cursor..cursor + len]).into_owned();
            cursor += len;
            if property == "text" {
                return value;
            }
        } else {
            cursor += 8;
        }
    }
}

#[test]
fn cues_queued_past_the_last_tag_are_written_at_eos() {
    let mut harness = Harness::new();

    harness.push_flv_tag(0);
    harness.push_flv_tag(100);
    // Ahead of the stream position, so it cannot be written by the normal path.
    harness.push_cue(5_000, "final caption");
    assert_eq!(harness.script_tag_count(), 0, "a cue ahead of the stream must wait");

    harness.push_event(PadEvent::Eos);

    assert_eq!(
        harness.script_tag_count(),
        1,
        "the queued cue must be written before the stream ends, not dropped"
    );
    assert_eq!(harness.cue_texts(), vec!["final caption".to_owned()]);
}

#[test]
fn a_flush_discards_queued_cues_and_resets_the_timeline() {
    let mut harness = Harness::new();

    harness.push_flv_tag(0);
    harness.push_flv_tag(1_000);
    // Eligible to be written the moment a later tag arrives. That is what makes
    // the assertion discriminating: without the flush reset, the cue survives
    // and is emitted against the new timeline.
    harness.push_cue(2_000, "stale");
    let _ = harness.cue_texts();

    assert_eq!(harness.push_event(PadEvent::FlushStart), SegmentChange::Keep);
    assert_eq!(harness.push_event(PadEvent::FlushStop), SegmentChange::Keep);
    assert_eq!(
        harness.push_event(PadEvent::Segment { in_time: true }),
        SegmentChange::Replace
    );

    // The pre-flush cue belongs to a timeline that is no longer being sent.
    harness.push_flv_tag(0);
    harness.push_flv_tag(100);

    // And the injector must still work afterwards.
    harness.push_cue(0, "after flush");
    harness.push_flv_tag(200);
    // A tag beyond the stale cue's timestamp: if the cue survived the flush,
    // this is where it would be written.
    harness.push_flv_tag(3_000);

    let texts = harness.cue_texts();
    assert!(
        !texts.iter().any(|text| text == "stale"),
        "a cue from before the flush was written against the new timeline: {texts:?}"
    );
    assert!(
        texts.iter().any(|text| text == "after flush"),
        "cues after a flush must still be written: {texts:?}"
    );
}
