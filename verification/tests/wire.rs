//! The byte layout of bodies and tags.

use flvsubinject::amf::{script_data_body, MessageName, MAXIMUM_STRING_LEN};
use flvsubinject::flv::{
    parse_tag_header, script_data_tag, TagHeader, MAXIMUM_BODY_SIZE, TAG_TYPE_SCRIPT_DATA,
};

const CAPTION_HI: [u8; 31] = [
    0x02, 0x00, 0x09, b'o', b'n', b'C', b'a', b'p', b't', b'i', b'o', b'n', // message name
    0x08, 0x00, 0x00, 0x00, 0x01, // array of one
    0x00, 0x04, b't', b'e', b'x', b't', // property name
    0x02, 0x00, 0x02, b'h', b'i', // value
    0x00, 0x00, 0x09, // end
];

/// Bytes before the value's length in a body called `onCaption`.
const CAPTION_VALUE_AT: usize = 24;

#[test]
fn body_of_a_caption_is_laid_out_as_readers_expect() {
    assert_eq!(script_data_body(MessageName::OnCaption, "hi"), CAPTION_HI.to_vec());
}

#[test]
fn body_of_text_data_differs_in_its_name_alone() {
    let body = script_data_body(MessageName::OnTextData, "hi");
    assert_eq!(&body[..13], b"\x02\x00\x0aonTextData");
    assert_eq!(&body[13..], &CAPTION_HI[12..]);
}

#[test]
fn an_empty_text_is_carried_as_an_empty_string() {
    let body = script_data_body(MessageName::OnCaption, "");
    assert_eq!(&body[CAPTION_VALUE_AT..], &[0x00, 0x00, 0x00, 0x00, 0x09]);
}

#[test]
fn text_is_counted_in_bytes() {
    let body = script_data_body(MessageName::OnCaption, "\u{200b}");
    assert_eq!(
        &body[CAPTION_VALUE_AT..],
        &[0x00, 0x03, 0xe2, 0x80, 0x8b, 0x00, 0x00, 0x09]
    );
}

#[test]
fn the_longest_text_is_carried_whole() {
    let text = "a".repeat(MAXIMUM_STRING_LEN);
    let body = script_data_body(MessageName::OnCaption, &text);
    assert_eq!(&body[CAPTION_VALUE_AT..CAPTION_VALUE_AT + 2], &[0xff, 0xff]);
    assert_eq!(&body[CAPTION_VALUE_AT + 2..body.len() - 3], text.as_bytes());
    assert!(body.len() <= MAXIMUM_BODY_SIZE);
}

#[test]
fn a_longer_text_is_cut_between_characters() {
    let longer = "a".repeat(MAXIMUM_STRING_LEN + 1);
    let body = script_data_body(MessageName::OnCaption, &longer);
    assert_eq!(&body[CAPTION_VALUE_AT + 2..body.len() - 3], &longer.as_bytes()[..0xffff]);

    // The last character that starts within the limit does not end there.
    let mut wide = "a".repeat(MAXIMUM_STRING_LEN - 3);
    wide.push('\u{1f600}');
    wide.push('b');
    let body = script_data_body(MessageName::OnCaption, &wide);
    assert_eq!(&body[CAPTION_VALUE_AT..CAPTION_VALUE_AT + 2], &[0xff, 0xfc]);
    let carried = std::str::from_utf8(&body[CAPTION_VALUE_AT + 2..body.len() - 3]).unwrap();
    assert_eq!(carried, "a".repeat(MAXIMUM_STRING_LEN - 3));
}

#[test]
fn message_names_go_out_as_written() {
    assert_eq!(MessageName::OnCaption.as_str(), "onCaption");
    assert_eq!(MessageName::OnTextData.as_str(), "onTextData");
}

#[test]
fn a_tag_carries_size_timestamp_and_trailer() {
    assert_eq!(
        script_data_tag(0x1234_5678, &[0xaa, 0xbb]),
        vec![
            18, 0, 0, 2, 0x34, 0x56, 0x78, 0x12, 0, 0, 0, 0xaa, 0xbb, 0, 0, 0, 13,
        ]
    );
}

#[test]
fn a_tag_without_a_body_is_a_header_and_a_trailer() {
    assert_eq!(script_data_tag(0, &[]), vec![18, 0, 0, 0, 0, 0, 0, 0, 0, 0, 0, 0, 0, 0, 11]);
}

#[test]
fn a_tag_reads_back() {
    for timestamp_ms in [0u32, 1, 255, 256, 0xff_ffff, 0x100_0000, u32::MAX] {
        for len in [0usize, 1, 255, 256, 70_000] {
            let body = vec![7u8; len];
            let tag = script_data_tag(timestamp_ms, &body);
            let header = parse_tag_header(&tag).unwrap();
            assert_eq!(
                header,
                TagHeader { tag_type: TAG_TYPE_SCRIPT_DATA, body_size: len, timestamp_ms }
            );
            assert_eq!(header.total_len(), tag.len());
            assert_eq!(&tag[11..11 + len], &body[..]);
        }
    }
}

#[test]
fn a_header_needs_eleven_bytes() {
    let bytes = [9u8, 1, 2, 3, 4, 5, 6, 7, 8, 9, 10];
    for len in 0..bytes.len() {
        assert_eq!(parse_tag_header(&bytes[..len]), None);
    }
    assert_eq!(
        parse_tag_header(&bytes),
        Some(TagHeader { tag_type: 9, body_size: 0x01_0203, timestamp_ms: 0x0704_0506 })
    );
}
