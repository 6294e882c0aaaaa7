//! AMF0 bodies of the script-data messages that carry cues.
//!
//! A body is the message name as a string, and an ECMA array whose one property
//! is `text`, a string. Readers stop at the first property of that name, so
//! exactly one is written.

use vstd::prelude::*;

use crate::flv::{push_all, push_be16, push_be32, MAXIMUM_BODY_SIZE};

verus! {

/// Type marker of a string with a two byte length.
pub const STRING_MARKER: u8 = 2;

/// Type marker of an ECMA array.
pub const ECMA_ARRAY_MARKER: u8 = 8;

/// Type marker that ends an array, behind an empty property name.
pub const OBJECT_END_MARKER: u8 = 9;

/// The most bytes that a string with a two byte length can hold.
pub const MAXIMUM_STRING_LEN: usize = 0xffff;

/// The script-data message that carries a cue.
#[derive(Clone, Copy, Debug, PartialEq, Eq, Structural)]
pub enum MessageName {
    OnCaption,
    OnTextData,
}

impl MessageName {
    /// The name as it goes over the wire.
    pub open spec fn text(self) -> Seq<char> {
        match self {
            MessageName::OnCaption => "onCaption"@,
            MessageName::OnTextData => "onTextData"@,
        }
    }

    /// The name as it goes over the wire.
    pub fn as_str(self) -> (name: &'static str)
        ensures
            name@ == self.text(),
    {
        match self {
            MessageName::OnCaption => "onCaption",
            MessageName::OnTextData => "onTextData",
        }
    }
}

/// The last character boundary of `bytes` that is not beyond `limit`.
pub open spec fn boundary_within(bytes: Seq<u8>, limit: int) -> int
    decreases limit,
{
    if limit <= 0 || vstd::utf8::is_char_boundary(bytes, limit) {
        limit
    } else {
        boundary_within(bytes, limit - 1)
    }
}

/// The bytes that carry `text` in a string: its UTF-8 encoding, cut at the last
/// character boundary that still fits where the whole is too long.
pub open spec fn carried_text(text: Seq<char>) -> Seq<u8> {
    let bytes = vstd::utf8::encode_utf8(text);
    if bytes.len() <= MAXIMUM_STRING_LEN {
        bytes
    } else {
        bytes.subrange(0, boundary_within(bytes, MAXIMUM_STRING_LEN as int))
    }
}

/// `bytes` behind their length.
pub open spec fn counted(bytes: Seq<u8>) -> Seq<u8> {
    crate::flv::be16(bytes.len()) + bytes
}

/// The body of a message that carries `text`.
pub open spec fn script_data_body_bytes(name: MessageName, text: Seq<char>) -> Seq<u8> {
    seq![STRING_MARKER] + counted(vstd::utf8::encode_utf8(name.text())) + seq![ECMA_ARRAY_MARKER]
        + crate::flv::be32(1) + counted(vstd::utf8::encode_utf8("text"@)) + seq![STRING_MARKER]
        + counted(carried_text(text)) + seq![0u8, 0u8, OBJECT_END_MARKER]
}

/// Message and property names are plain ASCII, one byte for each character.
proof fn lemma_names_are_short(name: MessageName)
    ensures
        vstd::utf8::encode_utf8(name.text()).len() == name.text().len(),
        9 <= name.text().len() <= 10,
        vstd::utf8::encode_utf8("text"@) == seq![0x74u8, 0x65, 0x78, 0x74],
{
    reveal_strlit("onCaption");
    reveal_strlit("onTextData");
    reveal_strlit("text");
    assert(vstd::utf8::is_ascii_chars(name.text()));
    vstd::utf8::is_ascii_chars_encode_utf8(name.text());
    assert(vstd::utf8::is_ascii_chars("text"@));
    vstd::utf8::is_ascii_chars_encode_utf8("text"@);
    let encoded = vstd::utf8::encode_utf8("text"@);
    assert(encoded[0] == "text"@[0] as u8);
    assert(encoded[1] == "text"@[1] as u8);
    assert(encoded[2] == "text"@[2] as u8);
    assert(encoded[3] == "text"@[3] as u8);
    assert(encoded =~= seq![0x74u8, 0x65, 0x78, 0x74]);
}

/// Of four neighbouring positions in valid UTF-8 one is a character boundary.
proof fn lemma_boundary_is_near(bytes: Seq<u8>, at: int)
    requires
        vstd::utf8::valid_utf8(bytes),
        3 <= at <= bytes.len(),
    ensures
        vstd::utf8::is_char_boundary(bytes, at) || vstd::utf8::is_char_boundary(bytes, at - 1)
            || vstd::utf8::is_char_boundary(bytes, at - 2) || vstd::utf8::is_char_boundary(
            bytes,
            at - 3,
        ),
    decreases bytes.len(),
{
    reveal_with_fuel(vstd::utf8::is_char_boundary, 2);
    let first = vstd::utf8::length_of_first_scalar(bytes);
    if at - first >= 3 {
        lemma_boundary_is_near(vstd::utf8::pop_first_scalar(bytes), at - first);
    } else if first <= at {
        assert(vstd::utf8::is_char_boundary(bytes, first));
    }
}

proof fn lemma_boundary_within(bytes: Seq<u8>, limit: int)
    requires
        vstd::utf8::valid_utf8(bytes),
        0 <= limit <= bytes.len(),
    ensures
        0 <= boundary_within(bytes, limit) <= limit,
        limit - 3 <= boundary_within(bytes, limit),
        vstd::utf8::is_char_boundary(bytes, boundary_within(bytes, limit)),
        forall|at: int|
            boundary_within(bytes, limit) < at <= limit ==> !vstd::utf8::is_char_boundary(bytes, at),
    decreases limit,
{
    if limit > 0 && !vstd::utf8::is_char_boundary(bytes, limit) {
        lemma_boundary_within(bytes, limit - 1);
    }
    if limit >= 3 {
        lemma_boundary_is_near(bytes, limit);
    }
}

/// What is carried of a text is the whole text where it fits, and otherwise the
/// longest prefix that fits and splits no character; that costs at most three
/// bytes of the room there is.
pub proof fn law_text_is_carried_whole_or_cut_between_characters(text: Seq<char>)
    ensures
        ({
            let bytes = vstd::utf8::encode_utf8(text);
            let carried = carried_text(text);
            &&& vstd::utf8::valid_utf8(carried)
            &&& carried.len() <= 0xffff
            &&& carried == bytes.subrange(0, carried.len() as int)
            &&& bytes.len() <= 0xffff ==> carried == bytes
            &&& bytes.len() > 0xffff ==> {
                &&& carried.len() >= 0xffff - 3
                &&& forall|at: int|
                    carried.len() < at <= 0xffff
                        ==> !vstd::utf8::is_char_boundary(bytes, at)
            }
        }),
{
    let bytes = vstd::utf8::encode_utf8(text);
    vstd::utf8::encode_utf8_valid_utf8(text);
    if bytes.len() <= MAXIMUM_STRING_LEN {
        assert(bytes =~= bytes.subrange(0, bytes.len() as int));
    } else {
        lemma_boundary_within(bytes, MAXIMUM_STRING_LEN as int);
        vstd::utf8::valid_utf8_split(bytes, boundary_within(bytes, MAXIMUM_STRING_LEN as int));
    }
}

/// A body fits in a tag.
pub proof fn lemma_body_fits(name: MessageName, text: Seq<char>)
    ensures
        script_data_body_bytes(name, text).len() <= MAXIMUM_BODY_SIZE,
{
    lemma_names_are_short(name);
    law_text_is_carried_whole_or_cut_between_characters(text);
}

/// The bytes that carry `text` in a string.
fn carried(text: &str) -> (bytes: &[u8])
    ensures
        bytes@ == carried_text(text@),
{
    let bytes = text.as_bytes();
    if bytes.len() <= MAXIMUM_STRING_LEN {
        return bytes;
    }
    proof {
        vstd::utf8::encode_utf8_valid_utf8(text@);
    }
    let mut end: usize = MAXIMUM_STRING_LEN;
    while end > 0 && !text.is_char_boundary(end)
        invariant
            end <= MAXIMUM_STRING_LEN < bytes@.len(),
            bytes@ == vstd::utf8::encode_utf8(text@),
            boundary_within(bytes@, end as int) == boundary_within(
                bytes@,
                MAXIMUM_STRING_LEN as int,
            ),
        decreases end,
    {
        end -= 1;
    }
    vstd::slice::slice_subrange(bytes, 0, end)
}

/// Builds the body of the message `name` that carries `text`.
///
/// An empty text is carried like any other: it is how a display is cleared.
pub fn script_data_body(name: MessageName, text: &str) -> (body: Vec<u8>)
    ensures
        body@ == script_data_body_bytes(name, text@),
{
    proof {
        lemma_names_are_short(name);
        law_text_is_carried_whole_or_cut_between_characters(text@);
    }
    let carried_bytes = carried(text);
    let mut body: Vec<u8> = Vec::new();
    body.push(STRING_MARKER);
    assert(body@ =~= seq![STRING_MARKER]);
    push_counted(&mut body, name.as_str().as_bytes());
    push_byte(&mut body, ECMA_ARRAY_MARKER);
    push_be32(&mut body, 1);
    push_counted(&mut body, "text".as_bytes());
    push_byte(&mut body, STRING_MARKER);
    push_counted(&mut body, carried_bytes);
    let ghost before = body@;
    body.push(0);
    body.push(0);
    body.push(OBJECT_END_MARKER);
    assert(body@ =~= before + seq![0u8, 0u8, OBJECT_END_MARKER]);
    body
}

fn push_byte(out: &mut Vec<u8>, byte: u8)
    ensures
        final(out)@ == old(out)@ + seq![byte],
{
    out.push(byte);
    assert(out@ =~= old(out)@ + seq![byte]);
}

/// Appends `bytes` behind their length.
fn push_counted(out: &mut Vec<u8>, bytes: &[u8])
    requires
        bytes@.len() <= MAXIMUM_STRING_LEN,
    ensures
        final(out)@ == old(out)@ + counted(bytes@),
{
    push_be16(out, bytes.len() as u16);
    push_all(out, bytes);
    assert(out@ =~= old(out)@ + counted(bytes@));
}

/// The body of a caption message is, byte for byte: the message name as a counted
/// string, an array of one, `text` as a counted name, the text as a counted
/// string, and the end of the array. The text is carried whole up to 65535
/// bytes.
pub proof fn law_body_layout(text: Seq<char>)
    ensures
        ({
            let carried = carried_text(text);
            let array = seq![8u8, 0, 0, 0, 1, 0, 4, 0x74, 0x65, 0x78, 0x74, 2] + seq![
                (carried.len() / 0x100) as u8,
                (carried.len() % 0x100) as u8,
            ] + carried + seq![0u8, 0, 9];
            &&& script_data_body_bytes(MessageName::OnCaption, text) == seq![
                2u8, 0, 9, 0x6f, 0x6e, 0x43, 0x61, 0x70, 0x74, 0x69, 0x6f, 0x6e,
            ] + array
            &&& script_data_body_bytes(MessageName::OnTextData, text) == seq![
                2u8, 0, 10, 0x6f, 0x6e, 0x54, 0x65, 0x78, 0x74, 0x44, 0x61, 0x74, 0x61,
            ] + array
            &&& carried.len() <= 0xffff
            &&& vstd::utf8::encode_utf8(text).len() <= 0xffff ==> carried
                == vstd::utf8::encode_utf8(text)
        }),
{
    law_text_is_carried_whole_or_cut_between_characters(text);
    lemma_names_are_short(MessageName::OnCaption);
    lemma_names_are_short(MessageName::OnTextData);
    lemma_message_names();
    let carried = carried_text(text);
    let tail = seq![8u8, 0, 0, 0, 1, 0, 4, 0x74, 0x65, 0x78, 0x74, 2] + seq![
        (carried.len() / 0x100) as u8,
        (carried.len() % 0x100) as u8,
    ] + carried + seq![0u8, 0, 9];
    assert(script_data_body_bytes(MessageName::OnCaption, text) =~= seq![
        2u8, 0, 9, 0x6f, 0x6e, 0x43, 0x61, 0x70, 0x74, 0x69, 0x6f, 0x6e,
    ] + tail);
    assert(script_data_body_bytes(MessageName::OnTextData, text) =~= seq![
        2u8, 0, 10, 0x6f, 0x6e, 0x54, 0x65, 0x78, 0x74, 0x44, 0x61, 0x74, 0x61,
    ] + tail);
}

proof fn lemma_message_names()
    ensures
        vstd::utf8::encode_utf8(MessageName::OnCaption.text()) == seq![
            0x6fu8, 0x6e, 0x43, 0x61, 0x70, 0x74, 0x69, 0x6f, 0x6e,
        ],
        vstd::utf8::encode_utf8(MessageName::OnTextData.text()) == seq![
            0x6fu8, 0x6e, 0x54, 0x65, 0x78, 0x74, 0x44, 0x61, 0x74, 0x61,
        ],
{
    reveal_strlit("onCaption");
    reveal_strlit("onTextData");
    let caption = MessageName::OnCaption.text();
    let data = MessageName::OnTextData.text();
    assert(vstd::utf8::is_ascii_chars(caption));
    assert(vstd::utf8::is_ascii_chars(data));
    vstd::utf8::is_ascii_chars_encode_utf8(caption);
    vstd::utf8::is_ascii_chars_encode_utf8(data);
    assert(vstd::utf8::encode_utf8(caption) =~= seq![
        0x6fu8, 0x6e, 0x43, 0x61, 0x70, 0x74, 0x69, 0x6f, 0x6e,
    ]);
    assert(vstd::utf8::encode_utf8(data) =~= seq![
        0x6fu8, 0x6e, 0x54, 0x65, 0x78, 0x74, 0x44, 0x61, 0x74, 0x61,
    ]);
}

/// The value of the first string property called `text`, read from `at` on,
/// where the name of a property is expected. Other strings are passed over by
/// their length, any other value by the eight bytes of a number, and an empty
/// name ends the search.
pub open spec fn first_text(body: Seq<u8>, at: int) -> Option<Seq<u8>>
    decreases body.len() - at,
{
    let marker_at = at + 2 + crate::flv::u16_at(body, at);
    let value_at = marker_at + 3;
    let value_end = value_at + crate::flv::u16_at(body, marker_at + 1);
    if at + 2 > body.len() || crate::flv::u16_at(body, at) == 0 || marker_at >= body.len() {
        None
    } else if body[marker_at] != STRING_MARKER {
        if marker_at + 9 > body.len() {
            None
        } else {
            first_text(body, marker_at + 9)
        }
    } else if value_at > body.len() || value_end > body.len() {
        None
    } else if body.subrange(at + 2, marker_at) == vstd::utf8::encode_utf8("text"@) {
        Some(body.subrange(value_at, value_end))
    } else {
        first_text(body, value_end)
    }
}

/// The message name that a reader finds at the start of `body`.
pub open spec fn message_of(body: Seq<u8>) -> Option<Seq<u8>> {
    let name_end = 3int + crate::flv::u16_at(body, 1);
    if body.len() < 3 || body[0] != STRING_MARKER || name_end > body.len() {
        None
    } else {
        Some(body.subrange(3, name_end))
    }
}

/// The cue text that a reader finds in `body`: behind the message name it
/// expects an ECMA array, and in that array it takes the first `text`.
pub open spec fn text_of(body: Seq<u8>) -> Option<Seq<u8>> {
    let array_at = 3int + crate::flv::u16_at(body, 1);
    if message_of(body) is None || array_at + 5 > body.len() || body[array_at]
        != ECMA_ARRAY_MARKER {
        None
    } else {
        first_text(body, array_at + 5)
    }
}

/// A body reads back: a reader finds the message name and the carried text.
pub proof fn law_body_reads_back(name: MessageName, text: Seq<char>)
    ensures
        message_of(script_data_body_bytes(name, text)) == Some(
            vstd::utf8::encode_utf8(name.text()),
        ),
        text_of(script_data_body_bytes(name, text)) == Some(carried_text(text)),
{
    lemma_names_are_short(name);
    law_text_is_carried_whole_or_cut_between_characters(text);
    let body = script_data_body_bytes(name, text);
    let message = vstd::utf8::encode_utf8(name.text());
    let key = vstd::utf8::encode_utf8("text"@);
    let value = carried_text(text);
    let n = message.len() as int;
    assert(body.len() == n + value.len() + 20);
    assert(body[1] == crate::flv::be16(message.len())[0]);
    assert(body[2] == crate::flv::be16(message.len())[1]);
    assert(crate::flv::u16_at(body, 1) == n);
    assert(body.subrange(3, 3 + n) =~= message);
    assert(body[3 + n] == ECMA_ARRAY_MARKER);
    let at = n + 8;
    assert(body[at] == crate::flv::be16(4)[0]);
    assert(body[at + 1] == crate::flv::be16(4)[1]);
    assert(crate::flv::u16_at(body, at) == 4);
    assert(body.subrange(at + 2, at + 6) =~= key);
    assert(body[at + 6] == STRING_MARKER);
    assert(body[at + 7] == crate::flv::be16(value.len())[0]);
    assert(body[at + 8] == crate::flv::be16(value.len())[1]);
    assert(crate::flv::u16_at(body, at + 7) == value.len());
    assert(body.subrange(at + 9, at + 9 + value.len()) =~= value);
}

} // verus!
