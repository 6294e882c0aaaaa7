//! FLV tag framing.
//!
//! An FLV stream is a short file header followed by self-delimiting tags. Each
//! tag is an eleven byte header, a body, and the size of what came before
//! repeated as a four byte trailer, so a correctly framed tag can be inserted
//! between any two others.

use vstd::prelude::*;

verus! {

/// Tag type of a script-data tag.
pub const TAG_TYPE_SCRIPT_DATA: u8 = 18;

/// Bytes before the body of a tag.
pub const TAG_HEADER_LEN: usize = 11;

/// Bytes of the size field that follows every tag.
pub const PREVIOUS_TAG_SIZE_LEN: usize = 4;

/// Bytes of the file header together with the zero size field behind it.
pub const FILE_HEADER_LEN: usize = 13;

/// The largest body that a tag header can announce.
pub const MAXIMUM_BODY_SIZE: usize = 0xff_ffff;

/// The largest millisecond timestamp that a tag header can carry: three bytes
/// and the extension byte.
pub const MAXIMUM_TIMESTAMP_MS: u64 = 0xffff_ffff;

/// `value` as two bytes, most significant first.
pub open spec fn be16(value: nat) -> Seq<u8>
    recommends
        value < 0x1_0000,
{
    seq![(value / 256) as u8, (value % 256) as u8]
}

/// `value` as three bytes, most significant first.
pub open spec fn be24(value: nat) -> Seq<u8>
    recommends
        value < 0x100_0000,
{
    seq![(value / 0x1_0000) as u8, (value / 256 % 256) as u8, (value % 256) as u8]
}

/// `value` as four bytes, most significant first.
pub open spec fn be32(value: nat) -> Seq<u8>
    recommends
        value < 0x1_0000_0000,
{
    seq![
        (value / 0x100_0000) as u8,
        (value / 0x1_0000 % 256) as u8,
        (value / 256 % 256) as u8,
        (value % 256) as u8,
    ]
}

/// The number in the three bytes of `bytes` that start at `at`.
pub open spec fn u24_at(bytes: Seq<u8>, at: int) -> nat {
    (bytes[at] * 0x1_0000 + bytes[at + 1] * 256 + bytes[at + 2]) as nat
}

/// The number in the two bytes of `bytes` that start at `at`.
pub open spec fn u16_at(bytes: Seq<u8>, at: int) -> nat {
    (bytes[at] * 256 + bytes[at + 1]) as nat
}

/// What the header of a tag says.
#[derive(Clone, Copy, Debug, PartialEq, Eq, Structural)]
pub struct TagHeader {
    pub tag_type: u8,
    pub body_size: usize,
    pub timestamp_ms: u32,
}

/// What the first eleven bytes of `bytes` say, read as a tag header. The
/// timestamp's most significant byte comes behind the other three.
pub open spec fn tag_header(bytes: Seq<u8>) -> TagHeader
    recommends
        bytes.len() >= TAG_HEADER_LEN,
{
    TagHeader {
        tag_type: bytes[0],
        body_size: u24_at(bytes, 1) as usize,
        timestamp_ms: (bytes[7] * 0x100_0000 + u24_at(bytes, 4)) as u32,
    }
}

impl TagHeader {
    /// Length of the tag with its header and the size field behind it.
    pub open spec fn tag_len(self) -> nat {
        (TAG_HEADER_LEN + self.body_size + PREVIOUS_TAG_SIZE_LEN) as nat
    }

    /// Length of the tag with its header and the size field behind it.
    pub fn total_len(&self) -> (len: usize)
        requires
            self.tag_len() <= usize::MAX,
        ensures
            len == self.tag_len(),
            len == self.body_size + 15,
    {
        TAG_HEADER_LEN + self.body_size + PREVIOUS_TAG_SIZE_LEN
    }
}

/// Whether `bytes` starts with a tag that is there in full.
pub open spec fn starts_with_tag(bytes: Seq<u8>) -> bool {
    &&& bytes.len() >= TAG_HEADER_LEN
    &&& bytes.len() >= tag_header(bytes).tag_len()
}

/// Whether `bytes` is exactly one tag, header and trailing size field included.
pub open spec fn is_tag(bytes: Seq<u8>) -> bool {
    &&& bytes.len() >= TAG_HEADER_LEN
    &&& bytes.len() == tag_header(bytes).tag_len()
}

/// Reads the tag header at the start of `bytes`, or `None` when fewer bytes
/// than a header are there.
pub fn parse_tag_header(bytes: &[u8]) -> (header: Option<TagHeader>)
    ensures
        header is Some <==> bytes@.len() >= TAG_HEADER_LEN,
        header matches Some(header) ==> header == tag_header(bytes@) && header.body_size
            <= MAXIMUM_BODY_SIZE,
        header matches Some(header) ==> {
            &&& header.tag_type == bytes@[0]
            &&& header.body_size == bytes@[1] * 0x1_0000 + bytes@[2] * 0x100 + bytes@[3]
            &&& header.timestamp_ms == bytes@[7] * 0x100_0000 + bytes@[4] * 0x1_0000 + bytes@[5]
                * 0x100 + bytes@[6]
        },
        header is None <==> bytes@.len() < 11,
{
    if bytes.len() < TAG_HEADER_LEN {
        return None;
    }
    let body_size: usize = bytes[1] as usize * 0x1_0000 + bytes[2] as usize * 256
        + bytes[3] as usize;
    let timestamp_ms: u32 = bytes[7] as u32 * 0x100_0000 + bytes[4] as u32 * 0x1_0000
        + bytes[5] as u32 * 256 + bytes[6] as u32;
    Some(TagHeader { tag_type: bytes[0], body_size, timestamp_ms })
}

/// The bytes of a script-data tag: type, body size, timestamp with its
/// extension byte, stream id zero, the body, and the size of all of that.
pub open spec fn script_data_tag_bytes(timestamp_ms: nat, body: Seq<u8>) -> Seq<u8> {
    seq![TAG_TYPE_SCRIPT_DATA] + be24(body.len()) + be24(timestamp_ms % 0x100_0000) + seq![
        (timestamp_ms / 0x100_0000) as u8,
    ] + be24(0) + body + be32(TAG_HEADER_LEN as nat + body.len())
}

/// Appends `value` as two bytes, most significant first.
pub(crate) fn push_be16(out: &mut Vec<u8>, value: u16)
    ensures
        final(out)@ == old(out)@ + be16(value as nat),
{
    out.push((value / 256) as u8);
    out.push((value % 256) as u8);
    assert(out@ =~= old(out)@ + be16(value as nat));
}

/// Appends `value` as three bytes, most significant first.
fn push_be24(out: &mut Vec<u8>, value: u32)
    requires
        value < 0x100_0000,
    ensures
        final(out)@ == old(out)@ + be24(value as nat),
{
    out.push((value / 0x1_0000) as u8);
    out.push((value / 256 % 256) as u8);
    out.push((value % 256) as u8);
    assert(out@ =~= old(out)@ + be24(value as nat));
}

/// Appends `value` as four bytes, most significant first.
pub(crate) fn push_be32(out: &mut Vec<u8>, value: u32)
    ensures
        final(out)@ == old(out)@ + be32(value as nat),
{
    out.push((value / 0x100_0000) as u8);
    out.push((value / 0x1_0000 % 256) as u8);
    out.push((value / 256 % 256) as u8);
    out.push((value % 256) as u8);
    assert(out@ =~= old(out)@ + be32(value as nat));
}

/// Appends all of `bytes`.
pub(crate) fn push_all(out: &mut Vec<u8>, bytes: &[u8])
    ensures
        final(out)@ == old(out)@ + bytes@,
{
    out.extend_from_slice(bytes);
    assert(out@ =~= old(out)@ + bytes@);
}

/// Frames `body` as a script-data tag at `timestamp_ms`.
pub fn script_data_tag(timestamp_ms: u32, body: &[u8]) -> (tag: Vec<u8>)
    requires
        body@.len() <= MAXIMUM_BODY_SIZE,
    ensures
        tag@ == script_data_tag_bytes(timestamp_ms as nat, body@),
        ({
            let end = body@.len() + 11int;
            &&& tag@.len() == body@.len() + 15
            &&& tag@[0] == 18
            &&& tag@[1] * 0x1_0000 + tag@[2] * 0x100 + tag@[3] == body@.len()
            &&& tag@[7] * 0x100_0000 + tag@[4] * 0x1_0000 + tag@[5] * 0x100 + tag@[6] == timestamp_ms
            &&& tag@[8] == 0 && tag@[9] == 0 && tag@[10] == 0
            &&& tag@.subrange(11, end) == body@
            &&& tag@[end] * 0x100_0000 + tag@[end + 1] * 0x1_0000 + tag@[end + 2] * 0x100 + tag@[end + 3]
                == body@.len() + 11
        }),
{
    proof {
        law_script_data_tag_layout(timestamp_ms, body@);
    }
    let mut tag: Vec<u8> = Vec::new();
    tag.push(TAG_TYPE_SCRIPT_DATA);
    assert(tag@ =~= seq![TAG_TYPE_SCRIPT_DATA]);
    push_be24(&mut tag, body.len() as u32);
    push_be24(&mut tag, timestamp_ms % 0x100_0000);
    let ghost before = tag@;
    tag.push((timestamp_ms / 0x100_0000) as u8);
    assert(tag@ =~= before + seq![(timestamp_ms as nat / 0x100_0000) as u8]);
    push_be24(&mut tag, 0);
    push_all(&mut tag, body);
    push_be32(&mut tag, TAG_HEADER_LEN as u32 + body.len() as u32);
    tag
}

/// A framed body carries its numbers: the size and the time in the header, a
/// stream id of zero, and behind the body the size of the tag.
pub proof fn law_script_data_tag_layout(timestamp_ms: u32, body: Seq<u8>)
    requires
        body.len() <= 0xff_ffff,
    ensures
        ({
            let tag = script_data_tag_bytes(timestamp_ms as nat, body);
            let end = body.len() + 11int;
            &&& tag.len() == body.len() + 15
            &&& tag[0] == 18
            &&& tag[1] * 0x1_0000 + tag[2] * 0x100 + tag[3] == body.len()
            &&& tag[7] * 0x100_0000 + tag[4] * 0x1_0000 + tag[5] * 0x100 + tag[6] == timestamp_ms
            &&& tag[8] == 0 && tag[9] == 0 && tag[10] == 0
            &&& tag.subrange(11, end) == body
            &&& tag[end] * 0x100_0000 + tag[end + 1] * 0x1_0000 + tag[end + 2] * 0x100 + tag[end + 3]
                == body.len() + 11
        }),
{
    let tag = script_data_tag_bytes(timestamp_ms as nat, body);
    let size = body.len();
    let low = timestamp_ms as nat % 0x100_0000;
    let total = size + 11;
    let end = total as int;
    assert(tag.len() == size + 15);
    assert(tag[1] == be24(size)[0] && tag[2] == be24(size)[1] && tag[3] == be24(size)[2]);
    assert(tag[4] == be24(low)[0] && tag[5] == be24(low)[1] && tag[6] == be24(low)[2]);
    assert(tag[8] == be24(0)[0] && tag[9] == be24(0)[1] && tag[10] == be24(0)[2]);
    assert(tag.subrange(11, end) =~= body);
    assert(tag[end] == be32(total)[0] && tag[end + 1] == be32(total)[1]);
    assert(tag[end + 2] == be32(total)[2] && tag[end + 3] == be32(total)[3]);
}

/// A tag is as long as its own bytes say: fifteen bytes and the number in the
/// second to fourth of them. It is there in full as soon as that many are.
pub proof fn law_tag_is_as_long_as_it_says(bytes: Seq<u8>)
    ensures
        bytes.len() < 11 ==> !starts_with_tag(bytes),
        bytes.len() >= 11 ==> {
            let size = bytes[1] * 0x1_0000 + bytes[2] * 0x100 + bytes[3];
            &&& tag_header(bytes).tag_type == bytes[0]
            &&& tag_header(bytes).body_size == size
            &&& tag_header(bytes).timestamp_ms == bytes[7] * 0x100_0000 + bytes[4] * 0x1_0000
                + bytes[5] * 0x100 + bytes[6]
            &&& tag_header(bytes).tag_len() == size + 15
            &&& starts_with_tag(bytes) <==> bytes.len() >= size + 15
            &&& is_tag(bytes) <==> bytes.len() == size + 15
        },
{
}

/// A script-data tag reads back as one tag that carries the timestamp and the
/// body size it was framed with, and its body lies right behind the header.
pub proof fn law_script_data_tag_reads_back(timestamp_ms: u32, body: Seq<u8>)
    requires
        body.len() <= MAXIMUM_BODY_SIZE,
    ensures
        ({
            let tag = script_data_tag_bytes(timestamp_ms as nat, body);
            &&& is_tag(tag)
            &&& tag_header(tag) == (TagHeader {
                tag_type: TAG_TYPE_SCRIPT_DATA,
                body_size: body.len() as usize,
                timestamp_ms,
            })
            &&& tag.subrange(TAG_HEADER_LEN as int, TAG_HEADER_LEN + body.len()) == body
        }),
{
    let tag = script_data_tag_bytes(timestamp_ms as nat, body);
    let size = body.len();
    let low = timestamp_ms as nat % 0x100_0000;
    assert(tag.len() == TAG_HEADER_LEN + size + PREVIOUS_TAG_SIZE_LEN);
    assert(tag[1] == be24(size)[0] && tag[2] == be24(size)[1] && tag[3] == be24(size)[2]);
    assert(tag[4] == be24(low)[0] && tag[5] == be24(low)[1] && tag[6] == be24(low)[2]);
    assert(u24_at(tag, 1) == size);
    assert(u24_at(tag, 4) == low);
    assert(tag.subrange(TAG_HEADER_LEN as int, TAG_HEADER_LEN + size) =~= body);
}

} // verus!
