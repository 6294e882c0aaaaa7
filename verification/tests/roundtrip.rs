//! End-to-end tests: a short A/V stream goes through the injector, and a reader
//! that follows the layout a demuxer expects gets the cues back.
//!
//! Muxers rewrite `onMetaData` whenever codec info or tags change, so a live
//! stream carries several such tags at non-zero timestamps. They are script
//! data too, and the reader has to see past them.

use flvsubinject::flv::{parse_tag_header, TAG_TYPE_SCRIPT_DATA};
use flvsubinject::settings::PropertyValue;
use flvsubinject::subinject::{Admission, FlvSubInject};

const FRAMES: u64 = 60;

fn tag(tag_type: u8, millis: u32, body: &[u8]) -> Vec<u8> {
    let mut tag = vec![tag_type];
    tag.extend_from_slice(&(body.len() as u32).to_be_bytes()[1..]);
    tag.extend_from_slice(&millis.to_be_bytes()[1..]);
    tag.push((millis >> 24) as u8);
    tag.extend_from_slice(&[0, 0, 0]);
    tag.extend_from_slice(body);
    tag.extend_from_slice(&(11 + body.len() as u32).to_be_bytes());
    tag
}

fn metadata_body() -> Vec<u8> {
    let mut body = vec![0x02, 0x00, 0x0a];
    body.extend_from_slice(b"onMetaData");
    body.extend_from_slice(&[0x08, 0, 0, 0, 1, 0, 5]);
    body.extend_from_slice(b"width");
    body.push(0x00);
    body.extend_from_slice(&320f64.to_be_bytes());
    body.extend_from_slice(&[0, 0, 9]);
    body
}

/// What a muxer emits: buffers with their timestamps in nanoseconds. The file
/// header and the metadata behind it have none.
fn muxed() -> Vec<(Vec<u8>, Option<u64>)> {
    let mut buffers = vec![
        (vec![0x46, 0x4c, 0x56, 1, 1, 0, 0, 0, 9, 0, 0, 0, 0], None),
        (tag(18, 0, &metadata_body()), None),
    ];
    for frame in 0..FRAMES {
        let millis = frame * 1000 / 30;
        let body = [0x17, 0x01, 0x00, 0x00, frame as u8];
        buffers.push((tag(9, millis as u32, &body), Some(millis * 1_000_000)));
        if frame == 20 {
            // Rewritten metadata, as muxers do.
            let again = tag(18, millis as u32, &metadata_body());
            buffers.push((again, Some(millis * 1_000_000)));
        }
    }
    buffers
}

fn produce_flv(cues: &[(u64, &str)]) -> Vec<u8> {
    produce_flv_with(cues, true)
}

fn produce_flv_with(cues: &[(u64, &str)], prime: bool) -> Vec<u8> {
    let mut injector = FlvSubInject::new();
    injector.set_property("prime", PropertyValue::Prime(prime));
    for (millis, text) in cues {
        let pts = Some(millis * 1_000_000);
        assert!(injector.has_room());
        let admission = injector.handle_text_buffer(text.as_bytes(), pts, pts);
        assert_eq!(admission, Admission::Queued);
    }
    let mut output = Vec::new();
    for (bytes, pts) in muxed() {
        for buffer in injector.handle_flv_buffer(&bytes, pts, pts) {
            output.extend_from_slice(&buffer);
        }
    }
    output
}

/// The same stream with no injector at all, as a transparency baseline.
fn produce_flv_without_element() -> Vec<u8> {
    let mut output = Vec::new();
    for (bytes, _) in muxed() {
        output.extend_from_slice(&bytes);
    }
    output
}

fn string_at(bytes: &[u8], at: usize) -> Option<(String, usize)> {
    let len = u16::from_be_bytes([*bytes.get(at)?, *bytes.get(at + 1)?]) as usize;
    let value = bytes.get(at + 2..at + 2 + len)?;
    Some((String::from_utf8(value.to_vec()).ok()?, at + 2 + len))
}

/// The text of a caption message, or `None` for any other script data.
fn caption(body: &[u8]) -> Option<String> {
    if *body.first()? != 0x02 {
        return None;
    }
    let (name, at) = string_at(body, 1)?;
    if name != "onCaption" && name != "onTextData" {
        return None;
    }
    assert_eq!(body[at], 0x08, "the payload must be an ECMA array");
    let (property, at) = string_at(body, at + 5)?;
    assert_eq!(property, "text", "the text must be the first property");
    assert_eq!(body[at], 0x02, "the text must be a string");
    let (text, at) = string_at(body, at + 1)?;
    assert_eq!(&body[at..], &[0, 0, 9], "the array must end behind the text");
    Some(text)
}

/// All caption messages of a stream, as `(timestamp_ms, text)`.
fn captions(flv: &[u8]) -> Vec<(i64, String)> {
    let mut found = Vec::new();
    let mut cursor = 13usize;
    while let Some(header) = parse_tag_header(&flv[cursor..]) {
        let body = &flv[cursor + 11..cursor + 11 + header.body_size];
        let total = header.total_len();
        let trailer = &flv[cursor + 11 + header.body_size..cursor + total];
        assert_eq!(trailer, &(11 + header.body_size as u32).to_be_bytes()[..]);
        if header.tag_type == TAG_TYPE_SCRIPT_DATA {
            if let Some(text) = caption(body) {
                found.push((i64::from(header.timestamp_ms), text));
            }
        }
        cursor += total;
    }
    assert_eq!(cursor, flv.len(), "the stream must end with a whole tag");
    found
}

/// The cues of a stream without the priming cue, which renders as nothing.
fn demuxed_cues(flv: &[u8]) -> Vec<(i64, String)> {
    captions(flv).into_iter().filter(|(_, text)| text != "\u{200b}").collect()
}

/// The codec of the subtitle stream that a demuxer creates on the first caption
/// message, or nothing.
fn subtitle_streams(flv: &[u8]) -> String {
    if captions(flv).is_empty() {
        String::new()
    } else {
        "text".to_owned()
    }
}

#[test]
fn ffmpeg_demuxes_injected_cues_at_their_timestamps() {
    let flv = produce_flv(&[(0, "first cue"), (500, "second cue"), (1000, "third cue")]);
    assert!(!flv.is_empty(), "pipeline produced no FLV bytes");

    let cues = demuxed_cues(&flv);
    assert_eq!(cues.len(), 3, "expected three demuxed cues, got {cues:?}");
    assert_eq!(cues[0].1, "first cue");
    assert_eq!(cues[1].1, "second cue");
    assert_eq!(cues[2].1, "third cue");

    // Timestamps must survive the round trip, not merely the text.
    assert!(cues[0].0.abs() <= 40, "first cue at {}ms", cues[0].0);
    assert!((cues[1].0 - 500).abs() <= 40, "second cue at {}ms", cues[1].0);
    assert!((cues[2].0 - 1000).abs() <= 40, "third cue at {}ms", cues[2].0);
}

#[test]
fn an_empty_cue_survives_as_a_clear_signal() {
    // An empty cue is how silence clears the display.
    let flv = produce_flv(&[(0, "visible"), (500, ""), (1000, "visible again")]);
    let cues = demuxed_cues(&flv);
    assert!(
        cues.iter().any(|(_, text)| text == "visible"),
        "first cue missing: {cues:?}"
    );
    assert!(
        cues.iter().any(|(_, text)| text == "visible again"),
        "third cue missing: {cues:?}"
    );
    assert_eq!(cues[1], (500, String::new()), "clear signal missing: {cues:?}");
}

#[test]
fn av_only_input_gains_no_cues_of_our_own() {
    // With no cues the injector must be transparent. Any legible cue here would
    // mean one was invented.
    let with_element = produce_flv(&[]);
    assert!(!with_element.is_empty());

    let cues = demuxed_cues(&with_element);
    assert!(cues.is_empty(), "unexpected cues: {cues:?}");
}

#[test]
fn passthrough_is_byte_identical_without_cues() {
    // The strongest statement of transparency: with priming disabled, the same
    // stream with and without the injector must be identical bytes.
    let injected = produce_flv_with(&[], false);
    let direct = produce_flv_without_element();
    assert_eq!(
        injected.len(),
        direct.len(),
        "element altered the byte count of an uncaptioned stream"
    );
    assert_eq!(injected, direct, "element altered an uncaptioned stream");
}

#[test]
fn priming_declares_the_subtitle_stream_before_any_cue() {
    // A stream whose captions start late must still be discoverable as carrying
    // subtitles: a reader creates the text stream on the first cue, and one
    // that has finished probing by then never sees it.
    let primed = produce_flv_with(&[], true);
    let streams = subtitle_streams(&primed);
    assert!(
        streams.contains("text"),
        "priming did not declare a subtitle stream: {streams:?}"
    );
    assert_eq!(captions(&primed), vec![(0, "\u{200b}".to_owned())]);
    // It comes before every tag of the muxer.
    let first = parse_tag_header(&primed[13..]).unwrap();
    assert_eq!(first.tag_type, TAG_TYPE_SCRIPT_DATA);
    assert!(caption(&primed[24..24 + first.body_size]).is_some());

    let unprimed = produce_flv_with(&[], false);
    assert_eq!(subtitle_streams(&unprimed), "");
}
