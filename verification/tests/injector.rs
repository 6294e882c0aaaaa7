//! What the injector does, call by call.

use flvsubinject::amf::{script_data_body, MessageName};
use flvsubinject::flv::{parse_tag_header, script_data_tag};
use flvsubinject::settings::{LatePolicy, MessageNameProperty, PropertyValue, Settings};
use flvsubinject::subinject::{
    Admission, FlvSubInject, PadEvent, SegmentChange, Tally, Transition,
};

const MILLISECOND: u64 = 1_000_000;

const FILE_HEADER: [u8; 13] = [0x46, 0x4c, 0x56, 1, 5, 0, 0, 0, 9, 0, 0, 0, 0];

/// A video tag at `millis`.
fn video(millis: u32) -> Vec<u8> {
    let mut tag = vec![9u8, 0, 0, 2];
    tag.extend_from_slice(&millis.to_be_bytes()[1..]);
    tag.push((millis >> 24) as u8);
    tag.extend_from_slice(&[0, 0, 0, 0x17, 0x01, 0, 0, 0, 13]);
    tag
}

fn cue(millis: u32, text: &str) -> Vec<u8> {
    script_data_tag(millis, &script_data_body(MessageName::OnCaption, text))
}

/// An injector that has passed the file header on and owes no declaration.
fn started() -> FlvSubInject {
    let mut injector = unprimed();
    assert_eq!(
        injector.handle_flv_buffer(&FILE_HEADER, None, None),
        vec![FILE_HEADER.to_vec()]
    );
    injector
}

fn unprimed() -> FlvSubInject {
    let mut injector = FlvSubInject::new();
    injector.set_property("prime", PropertyValue::Prime(false));
    injector
}

fn push_cue(injector: &mut FlvSubInject, millis: u64, text: &str) {
    let pts = Some(millis * MILLISECOND);
    assert!(injector.has_room());
    assert_eq!(injector.handle_text_buffer(text.as_bytes(), pts, None), Admission::Queued);
}

fn push_video(injector: &mut FlvSubInject, millis: u32) -> Vec<Vec<u8>> {
    injector.handle_flv_buffer(&video(millis), Some(u64::from(millis) * MILLISECOND), None)
}

fn tally(written: u64, dropped: u64, queued: usize) -> Tally {
    Tally { written, dropped, queued }
}

#[test]
fn a_cue_goes_out_right_before_the_tag_that_reaches_it() {
    let mut injector = started();
    assert_eq!(push_video(&mut injector, 0), vec![video(0)]);
    push_cue(&mut injector, 40, "at forty");
    assert_eq!(push_video(&mut injector, 39), vec![video(39)]);
    assert_eq!(push_video(&mut injector, 40), vec![cue(40, "at forty"), video(40)]);
    assert_eq!(push_video(&mut injector, 41), vec![video(41)]);
    assert_eq!(injector.tally(), tally(1, 0, 0));
}

#[test]
fn a_late_cue_moves_to_the_stream_position() {
    let mut injector = started();
    push_video(&mut injector, 0);
    push_cue(&mut injector, 40, "late");
    assert_eq!(push_video(&mut injector, 70), vec![cue(70, "late"), video(70)]);
    assert_eq!(injector.tally(), tally(1, 0, 0));
}

#[test]
fn a_late_cue_is_discarded_where_the_policy_says_so() {
    let mut injector = started();
    injector.set_property("late-policy", PropertyValue::LatePolicy(LatePolicy::Drop));
    push_video(&mut injector, 0);
    push_cue(&mut injector, 40, "late");
    push_cue(&mut injector, 70, "in time");
    push_cue(&mut injector, 71, "early");
    assert_eq!(push_video(&mut injector, 70), vec![cue(70, "in time"), video(70)]);
    assert_eq!(injector.tally(), tally(1, 1, 1));
}

#[test]
fn cues_leave_in_order_of_time_and_of_arrival() {
    let mut injector = started();
    push_video(&mut injector, 0);
    push_cue(&mut injector, 30, "c");
    push_cue(&mut injector, 10, "a");
    push_cue(&mut injector, 30, "d");
    push_cue(&mut injector, 20, "b");
    push_cue(&mut injector, 30, "e");
    assert_eq!(
        push_video(&mut injector, 30),
        vec![cue(30, "a"), cue(30, "b"), cue(30, "c"), cue(30, "d"), cue(30, "e"), video(30)]
    );
}

#[test]
fn cue_times_count_from_the_first_timestamped_buffer() {
    let mut injector = started();
    // Metadata has no timestamp and does not tie the clocks.
    assert_eq!(injector.handle_flv_buffer(&video(0), None, None), vec![video(0)]);
    push_cue(&mut injector, 1_040, "rebased");
    push_cue(&mut injector, 900, "before the origin");
    assert_eq!(injector.handle_flv_buffer(&video(0), None, None), vec![video(0)]);
    assert_eq!(
        injector.handle_flv_buffer(&video(0), Some(1_000 * MILLISECOND), None),
        vec![cue(0, "before the origin"), video(0)]
    );
    assert_eq!(
        injector.handle_flv_buffer(&video(40), Some(1_040 * MILLISECOND), None),
        vec![cue(40, "rebased"), video(40)]
    );
}

#[test]
fn parts_of_a_millisecond_are_cut_off() {
    let mut injector = started();
    push_video(&mut injector, 0);
    let pts = Some(41 * MILLISECOND - 1);
    assert_eq!(injector.handle_text_buffer(b"fraction", pts, None), Admission::Queued);
    assert_eq!(push_video(&mut injector, 40), vec![cue(40, "fraction"), video(40)]);
}

#[test]
fn a_segment_time_replaces_the_timestamp() {
    let mut injector = started();
    assert_eq!(
        injector.handle_flv_buffer(&video(0), Some(0), Some(500 * MILLISECOND)),
        vec![video(0)]
    );
    let admission =
        injector.handle_text_buffer(b"converted", Some(7), Some(540 * MILLISECOND));
    assert_eq!(admission, Admission::Queued);
    assert_eq!(push_video(&mut injector, 39), vec![video(39)]);
    assert_eq!(push_video(&mut injector, 40), vec![cue(40, "converted"), video(40)]);
}

#[test]
fn a_cue_far_ahead_is_held_at_the_largest_timestamp() {
    let mut injector = started();
    push_video(&mut injector, 0);
    assert_eq!(injector.handle_text_buffer(b"far", Some(u64::MAX), None), Admission::Queued);
    assert_eq!(push_video(&mut injector, u32::MAX - 1), vec![video(u32::MAX - 1)]);
    assert_eq!(push_video(&mut injector, u32::MAX), vec![cue(u32::MAX, "far"), video(u32::MAX)]);
}

#[test]
fn text_without_a_timestamp_is_ignored() {
    let mut injector = started();
    let admission = injector.handle_text_buffer(b"lost", None, Some(5));
    assert_eq!(admission, Admission::MissingTimestamp);
    // The missing timestamp is what is seen first.
    let admission = injector.handle_text_buffer(&[0xff], None, None);
    assert_eq!(admission, Admission::MissingTimestamp);
    assert_eq!(injector.tally(), tally(0, 0, 0));
}

#[test]
fn text_that_is_not_utf8_is_ignored() {
    let mut injector = started();
    for bytes in [&[0xff][..], &[0xe2, 0x80], &[0xc0, 0x80], &[0xed, 0xa0, 0x80], b"a\x80"] {
        assert_eq!(injector.handle_text_buffer(bytes, Some(0), None), Admission::NotUtf8);
    }
    assert_eq!(injector.tally(), tally(0, 0, 0));
}

#[test]
fn text_beyond_ascii_is_carried_as_it_came() {
    let mut injector = started();
    push_cue(&mut injector, 0, "d\u{e9}j\u{e0} \u{1f600}");
    assert_eq!(
        push_video(&mut injector, 0),
        vec![cue(0, "d\u{e9}j\u{e0} \u{1f600}"), video(0)]
    );
}

#[test]
fn nothing_is_written_while_the_clock_is_unknown() {
    let mut injector = started();
    push_cue(&mut injector, 0, "waits");
    assert_eq!(injector.handle_flv_buffer(&video(50), None, None), vec![video(50)]);
    assert_eq!(injector.handle_flv_event(PadEvent::Eos).output, Vec::<Vec<u8>>::new());
    assert_eq!(injector.tally(), tally(0, 0, 1));
}

#[test]
fn the_first_tag_is_primed_once() {
    let mut injector = FlvSubInject::new();
    let mut bytes = FILE_HEADER.to_vec();
    bytes.extend_from_slice(&video(17));
    bytes.extend_from_slice(&video(20));
    push_cue(&mut injector, 0, "cue");
    assert_eq!(
        injector.handle_flv_buffer(&bytes, Some(0), None),
        vec![FILE_HEADER.to_vec(), cue(17, "\u{200b}"), cue(17, "cue"), video(17), video(20)]
    );
    assert_eq!(push_video(&mut injector, 30), vec![video(30)]);
    // The declaration is no cue of the text pad.
    assert_eq!(injector.tally(), tally(1, 0, 0));
}

#[test]
fn an_uncaptioned_stream_gains_the_priming_tag_alone() {
    let mut stream = FILE_HEADER.to_vec();
    for millis in [17, 20, 20, 50] {
        stream.extend_from_slice(&video(millis));
    }
    let mut expected = FILE_HEADER.to_vec();
    expected.extend_from_slice(&cue(17, "\u{200b}"));
    expected.extend_from_slice(&stream[13..]);
    for len in [1, 2, 7, 13, 14, 100] {
        let mut injector = FlvSubInject::new();
        let mut output = Vec::new();
        for chunk in stream.chunks(len) {
            output.extend(injector.handle_flv_buffer(chunk, Some(0), None));
        }
        output.extend(injector.handle_flv_event(PadEvent::Eos).output);
        assert_eq!(output.concat(), expected, "buffers of {len} bytes");
    }
}

#[test]
fn a_cue_leaves_once_with_the_first_tag_that_reaches_it() {
    let mut injector = started();
    push_video(&mut injector, 0);
    push_cue(&mut injector, 20, "twice");
    push_cue(&mut injector, 20, "twice");
    push_cue(&mut injector, 35, "later");
    assert_eq!(push_video(&mut injector, 10), vec![video(10)]);
    assert_eq!(
        push_video(&mut injector, 30),
        vec![cue(30, "twice"), cue(30, "twice"), video(30)]
    );
    // A second tag at the same time finds nothing more.
    assert_eq!(push_video(&mut injector, 30), vec![video(30)]);
    assert_eq!(injector.tally(), tally(2, 0, 1));
    // The same cue once more leaves once more.
    push_cue(&mut injector, 20, "twice");
    assert_eq!(
        push_video(&mut injector, 40),
        vec![cue(40, "twice"), cue(40, "later"), video(40)]
    );
    assert_eq!(push_video(&mut injector, 50), vec![video(50)]);
}

#[test]
fn the_end_of_the_stream_comes_behind_all_of_it() {
    let mut injector = FlvSubInject::new();
    let mut output = injector.handle_flv_buffer(&FILE_HEADER, None, None);
    for (millis, cue_millis) in [(0, 90), (30, 10), (60, 200), (90, 65), (120, 121)] {
        push_cue(&mut injector, cue_millis, "text");
        output.extend(push_video(&mut injector, millis));
    }
    output.extend(injector.handle_flv_event(PadEvent::Eos).output);
    let times: Vec<u32> = output[1..]
        .iter()
        .map(|buffer| parse_tag_header(buffer).unwrap().timestamp_ms)
        .collect();
    assert_eq!(times, vec![0, 0, 30, 30, 60, 90, 90, 90, 120, 121, 200]);
}

#[test]
fn the_priming_cue_is_three_bytes_of_text() {
    let mut injector = FlvSubInject::new();
    injector.handle_flv_buffer(&FILE_HEADER, None, None);
    let output = push_video(&mut injector, 0);
    let body_size = parse_tag_header(&output[0]).unwrap().body_size;
    let body = &output[0][11..11 + body_size];
    assert_eq!(&body[body_size - 8..], &[0, 3, 0xe2, 0x80, 0x8b, 0, 0, 9]);
}

#[test]
fn a_file_header_is_held_until_it_is_whole() {
    let mut injector = unprimed();
    for byte in &FILE_HEADER[..12] {
        assert_eq!(injector.handle_flv_buffer(&[*byte], None, None), Vec::<Vec<u8>>::new());
    }
    // The end of the stream adds nothing before its start is behind.
    push_cue(&mut injector, 0, "too soon");
    assert_eq!(injector.handle_flv_event(PadEvent::Eos).output, Vec::<Vec<u8>>::new());
    assert_eq!(
        injector.handle_flv_buffer(&FILE_HEADER[12..], Some(0), None),
        vec![FILE_HEADER.to_vec()]
    );
}

#[test]
fn a_stream_may_start_with_a_tag() {
    let mut injector = unprimed();
    assert_eq!(push_video(&mut injector, 0), vec![video(0)]);
    // Only the start of a stream is looked at for a file header.
    let mut mixed = video(1);
    mixed.extend_from_slice(&FILE_HEADER);
    assert_eq!(injector.handle_flv_buffer(&mixed, None, None), vec![video(1)]);
}

#[test]
fn a_tag_is_held_until_it_is_whole() {
    let mut injector = started();
    push_video(&mut injector, 0);
    push_cue(&mut injector, 10, "cue");
    let tag = video(10);
    for byte in &tag[..tag.len() - 1] {
        assert_eq!(injector.handle_flv_buffer(&[*byte], None, None), Vec::<Vec<u8>>::new());
    }
    let last = [tag[tag.len() - 1]];
    assert_eq!(
        injector.handle_flv_buffer(&last, None, None),
        vec![cue(10, "cue"), tag.clone()]
    );
}

#[test]
fn buffer_boundaries_make_no_difference() {
    let mut stream = FILE_HEADER.to_vec();
    for millis in [0, 10, 20, 30] {
        stream.extend_from_slice(&video(millis));
    }
    let cues = [(0, "a"), (15, "b"), (30, ""), (40, "c")];
    let whole = {
        let mut injector = FlvSubInject::new();
        for (millis, text) in cues {
            push_cue(&mut injector, millis, text);
        }
        injector.handle_flv_buffer(&stream, Some(0), None)
    };
    assert_eq!(whole.len(), 9);
    for cut in 0..=stream.len() {
        let mut injector = FlvSubInject::new();
        for (millis, text) in cues {
            push_cue(&mut injector, millis, text);
        }
        let mut output = injector.handle_flv_buffer(&stream[..cut], Some(0), None);
        output.extend(injector.handle_flv_buffer(&stream[cut..], Some(0), None));
        assert_eq!(output, whole, "cut at {cut}");
    }
}

#[test]
fn the_muxers_bytes_survive_whatever_the_cues() {
    let mut injector = FlvSubInject::new();
    let mut passed = Vec::new();
    let mut sent = FILE_HEADER.to_vec();
    let mut output = injector.handle_flv_buffer(&FILE_HEADER, None, None);
    for millis in 0..50u32 {
        push_cue(&mut injector, u64::from(millis * 7 % 50), "text");
        sent.extend_from_slice(&video(millis));
        output.extend(push_video(&mut injector, millis));
    }
    for buffer in &output {
        if buffer[0] != 18 {
            passed.extend_from_slice(buffer);
        }
    }
    assert_eq!(passed, sent);
    // And the output is in order of time.
    let times: Vec<u32> = output[1..]
        .iter()
        .map(|buffer| parse_tag_header(buffer).unwrap().timestamp_ms)
        .collect();
    assert!(times.windows(2).all(|pair| pair[0] <= pair[1]), "{times:?}");
    let counted = injector.tally();
    assert_eq!(counted.written + counted.dropped + counted.queued as u64, 50);
}

#[test]
fn cues_left_at_the_end_go_out_at_their_own_time() {
    let mut injector = started();
    push_video(&mut injector, 0);
    push_video(&mut injector, 100);
    push_cue(&mut injector, 300, "later");
    push_cue(&mut injector, 200, "ahead");
    push_cue(&mut injector, 50, "behind");
    let outcome = injector.handle_flv_event(PadEvent::Eos);
    assert!(outcome.forward);
    assert_eq!(outcome.segment, SegmentChange::Keep);
    assert_eq!(
        outcome.output,
        vec![cue(100, "behind"), cue(200, "ahead"), cue(300, "later")]
    );
    assert_eq!(injector.tally(), tally(3, 0, 0));
}

#[test]
fn the_late_policy_holds_at_the_end_too() {
    let mut injector = started();
    injector.set_property("late-policy", PropertyValue::LatePolicy(LatePolicy::Drop));
    push_video(&mut injector, 0);
    push_video(&mut injector, 100);
    push_cue(&mut injector, 50, "behind");
    push_cue(&mut injector, 200, "ahead");
    let outcome = injector.handle_flv_event(PadEvent::Eos);
    assert_eq!(outcome.output, vec![cue(200, "ahead")]);
    assert_eq!(injector.tally(), tally(1, 1, 0));
}

#[test]
fn other_events_on_the_flv_pad_travel_on_and_change_nothing() {
    let mut injector = started();
    push_cue(&mut injector, 10, "kept");
    for event in [
        PadEvent::Segment { in_time: false },
        PadEvent::StreamStart,
        PadEvent::Caps,
        PadEvent::Gap,
        PadEvent::FlushStart,
        PadEvent::Other,
    ] {
        let outcome = injector.handle_flv_event(event);
        assert!(outcome.forward);
        assert!(outcome.output.is_empty());
        assert_eq!(outcome.segment, SegmentChange::Keep, "{event:?}");
    }
    let outcome = injector.handle_flv_event(PadEvent::Segment { in_time: true });
    assert!(outcome.forward);
    assert_eq!(outcome.segment, SegmentChange::Replace);
    assert_eq!(injector.tally(), tally(0, 0, 1));
}

#[test]
fn events_on_the_text_pad_never_travel_on() {
    let mut injector = started();
    push_video(&mut injector, 0);
    push_cue(&mut injector, 10, "kept");
    for event in [
        PadEvent::Segment { in_time: false },
        PadEvent::Segment { in_time: true },
        PadEvent::StreamStart,
        PadEvent::Caps,
        PadEvent::Gap,
        PadEvent::Eos,
        PadEvent::FlushStart,
        PadEvent::FlushStop,
        PadEvent::Other,
    ] {
        let outcome = injector.handle_text_event(event);
        assert!(!outcome.forward);
        assert!(outcome.output.is_empty());
        let expected = if event == (PadEvent::Segment { in_time: true }) {
            SegmentChange::Replace
        } else {
            SegmentChange::Keep
        };
        assert_eq!(outcome.segment, expected, "{event:?}");
    }
    assert_eq!(push_video(&mut injector, 10), vec![cue(10, "kept"), video(10)]);
}

#[test]
fn a_stream_starts_from_nothing() {
    let mut injector = started();
    injector.set_property(
        "message-name",
        PropertyValue::MessageName(MessageNameProperty::OnTextData),
    );
    push_video(&mut injector, 0);
    push_cue(&mut injector, 10, "old");
    assert_eq!(injector.change_state(Transition::Other), SegmentChange::Keep);
    assert_eq!(injector.change_state(Transition::PausedToReady), SegmentChange::Keep);
    assert_eq!(injector.tally(), tally(0, 0, 1));
    assert_eq!(injector.change_state(Transition::ReadyToPaused), SegmentChange::Forget);
    assert_eq!(injector.tally(), tally(0, 0, 0));
    // The file header is looked for again, and the settings stay.
    assert_eq!(
        injector.handle_flv_buffer(&FILE_HEADER, None, None),
        vec![FILE_HEADER.to_vec()]
    );
    assert_eq!(
        injector.property("message-name"),
        PropertyValue::MessageName(MessageNameProperty::OnTextData)
    );
}

#[test]
fn a_flush_forgets_the_timeline_and_keeps_the_counts() {
    let mut injector = FlvSubInject::new();
    injector.handle_flv_buffer(&FILE_HEADER, None, None);
    push_cue(&mut injector, 1_000, "written");
    assert_eq!(
        push_video(&mut injector, 1_000),
        vec![cue(1_000, "\u{200b}"), cue(1_000, "written"), video(1_000)]
    );
    push_cue(&mut injector, 9_000, "stale");
    injector.handle_flv_buffer(&video(3_000)[..5], None, None);
    let outcome = injector.handle_flv_event(PadEvent::FlushStop);
    assert!(outcome.forward);
    assert!(outcome.output.is_empty());
    assert_eq!(outcome.segment, SegmentChange::Keep);
    assert_eq!(injector.tally(), tally(1, 0, 0));
    // Nothing of the tag that was cut off is left, and the subtitle stream is
    // not declared a second time.
    assert_eq!(push_video(&mut injector, 0), vec![video(0)]);
    // The clock is tied anew.
    push_cue(&mut injector, 40, "new");
    assert_eq!(push_video(&mut injector, 40), vec![cue(40, "new"), video(40)]);
    assert_eq!(injector.tally(), tally(2, 0, 0));
}

#[test]
fn a_file_header_is_looked_for_again_after_a_flush() {
    let mut injector = started();
    push_video(&mut injector, 0);
    injector.handle_flv_event(PadEvent::FlushStop);
    let mut bytes = FILE_HEADER.to_vec();
    bytes.extend_from_slice(&video(5));
    assert_eq!(
        injector.handle_flv_buffer(&bytes, Some(0), None),
        vec![FILE_HEADER.to_vec(), video(5)]
    );
}

#[test]
fn a_flush_before_the_first_tag_leaves_the_declaration_owed() {
    let mut injector = FlvSubInject::new();
    injector.handle_flv_buffer(&FILE_HEADER, None, None);
    injector.handle_flv_event(PadEvent::FlushStop);
    assert_eq!(push_video(&mut injector, 7), vec![cue(7, "\u{200b}"), video(7)]);
}

#[test]
fn a_stream_behind_a_flush_writes_its_own_cues_alone() {
    let mut injector = started();
    push_video(&mut injector, 0);
    push_cue(&mut injector, 10, "old");
    push_cue(&mut injector, 700, "old");
    injector.handle_flv_event(PadEvent::FlushStop);
    push_cue(&mut injector, 1_010, "new");
    let mut output = injector.handle_flv_buffer(&FILE_HEADER, None, None);
    for millis in [0, 20, 40] {
        let pts = Some(u64::from(millis + 1_000) * MILLISECOND);
        output.extend(injector.handle_flv_buffer(&video(millis), pts, None));
    }
    push_cue(&mut injector, 1_900, "last");
    output.extend(injector.handle_flv_event(PadEvent::Eos).output);
    assert_eq!(
        output,
        vec![
            FILE_HEADER.to_vec(),
            video(0),
            cue(20, "new"),
            video(20),
            video(40),
            cue(900, "last"),
        ]
    );
}

#[test]
fn cues_of_different_times_may_come_in_either_order() {
    let mut outputs = Vec::new();
    for swapped in [false, true] {
        let mut injector = started();
        push_video(&mut injector, 0);
        push_cue(&mut injector, 20, "between");
        let (first, second) = if swapped { (30, 10) } else { (10, 30) };
        push_cue(&mut injector, first, &format!("at {first}"));
        push_cue(&mut injector, second, &format!("at {second}"));
        outputs.push(push_video(&mut injector, 30));
    }
    assert_eq!(outputs[0], outputs[1]);
    assert_eq!(
        outputs[0],
        vec![cue(30, "at 10"), cue(30, "between"), cue(30, "at 30"), video(30)]
    );
}

#[test]
fn cues_of_one_time_keep_their_order_across_tags() {
    let mut injector = started();
    push_video(&mut injector, 0);
    push_cue(&mut injector, 30, "a");
    push_video(&mut injector, 10);
    push_cue(&mut injector, 30, "b");
    push_cue(&mut injector, 25, "x");
    push_video(&mut injector, 20);
    push_cue(&mut injector, 30, "c");
    assert_eq!(
        push_video(&mut injector, 30),
        vec![cue(30, "x"), cue(30, "a"), cue(30, "b"), cue(30, "c"), video(30)]
    );
}

#[test]
fn the_message_name_is_a_setting() {
    let mut injector = started();
    injector.set_property(
        "message-name",
        PropertyValue::MessageName(MessageNameProperty::OnTextData),
    );
    push_cue(&mut injector, 0, "hello");
    assert_eq!(
        push_video(&mut injector, 0),
        vec![
            script_data_tag(0, &script_data_body(MessageName::OnTextData, "hello")),
            video(0)
        ]
    );
}

#[test]
fn properties_read_back() {
    let mut injector = FlvSubInject::new();
    assert_eq!(
        injector.property("message-name"),
        PropertyValue::MessageName(MessageNameProperty::OnCaption)
    );
    assert_eq!(injector.property("late-policy"), PropertyValue::LatePolicy(LatePolicy::Clamp));
    assert_eq!(injector.property("prime"), PropertyValue::Prime(true));

    injector.set_property("late-policy", PropertyValue::LatePolicy(LatePolicy::Drop));
    assert_eq!(
        injector.property("message-name"),
        PropertyValue::MessageName(MessageNameProperty::OnCaption)
    );
    assert_eq!(injector.property("late-policy"), PropertyValue::LatePolicy(LatePolicy::Drop));
    assert_eq!(injector.property("prime"), PropertyValue::Prime(true));

    injector.set_property("prime", PropertyValue::Prime(false));
    assert_eq!(injector.property("prime"), PropertyValue::Prime(false));
}

#[test]
fn settings_have_their_documented_defaults() {
    let settings = Settings::default();
    assert_eq!(settings.message_name, MessageNameProperty::OnCaption);
    assert_eq!(settings.late_policy, LatePolicy::Clamp);
    assert!(settings.prime);
    assert_eq!(MessageNameProperty::default(), MessageNameProperty::OnCaption);
    assert_eq!(LatePolicy::default(), LatePolicy::Clamp);
}

#[test]
fn a_property_value_names_its_message() {
    assert_eq!(MessageName::from(MessageNameProperty::OnCaption), MessageName::OnCaption);
    assert_eq!(MessageName::from(MessageNameProperty::OnTextData), MessageName::OnTextData);
}

#[test]
fn there_is_room_for_a_first_cue() {
    assert!(FlvSubInject::new().has_room());
}
