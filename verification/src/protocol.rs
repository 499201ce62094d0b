//! What crosses the wire between this process and the sidecar.
//!
//! A message is a frame: its length in four bytes, the most significant first,
//! then that many bytes of JSON. Nothing of the model, the device or the
//! framework is ever part of a message.

use crate::error::LumeError;
use crate::float32::Float32;
use crate::text::{debug_text, decimal, decimal_u64, quoted};
use vstd::prelude::*;

verus! {

/// The most bytes of JSON in one frame.
pub const MAX_FRAME_BYTES: usize = 33_554_432;

/// A request.
#[derive(Clone, Debug, PartialEq, Eq)]
pub enum ClientMessage {
    Embed(EmbedRequest),
    EmbedOne(EmbedOneRequest),
    EmbedText(EmbedTextRequest),
}

/// A response.
#[derive(Clone, Debug, PartialEq, Eq)]
pub enum ServerMessage {
    EmbedResponse(EmbedResponse),
    EmbedOneResponse(EmbedOneResponse),
    Error { message: String },
}

/// A unit to be embedded.
#[derive(Clone, Debug, PartialEq, Eq)]
pub struct RequestUnit {
    /// The unit's position in the batch. The response repeats it.
    pub unit_idx: u32,
    pub path: String,
    /// The time of a video frame in seconds; none for a whole image.
    pub frame_ts: Option<Float32>,
}

/// Embed a batch.
#[derive(Clone, Debug, PartialEq, Eq)]
pub struct EmbedRequest {
    pub batch_id: u64,
    /// The edge of the thumbnails, in pixels.
    pub thumb_px: u32,
    pub units: Vec<RequestUnit>,
}

/// What came of one unit.
#[derive(Clone, Debug, PartialEq, Eq)]
pub enum UnitResult {
    /// The vector, as half-precision numbers with the least significant byte
    /// first, and a thumbnail.
    Embedded { emb_fp16: Vec<u8>, thumb_jpeg: Vec<u8> },
    Failed { reason: String },
}

/// What came of a batch.
#[derive(Clone, Debug, PartialEq, Eq)]
pub struct EmbedResponse {
    pub batch_id: u64,
    pub items: Vec<BatchItem>,
}

/// What came of one unit of a batch.
#[derive(Clone, Debug, PartialEq, Eq)]
pub struct BatchItem {
    pub unit_idx: u32,
    pub result: UnitResult,
}

/// Embed one image.
#[derive(Clone, Debug, PartialEq, Eq)]
pub struct EmbedOneRequest {
    pub image_bytes: Vec<u8>,
}

/// The vector of one image or text.
#[derive(Clone, Debug, PartialEq, Eq)]
pub struct EmbedOneResponse {
    pub emb_fp16: Vec<u8>,
}

/// Embed a query text.
#[derive(Clone, Debug, PartialEq, Eq)]
pub struct EmbedTextRequest {
    pub text: String,
}

// ---------------------------------------------------------------------------
// Frames
// ---------------------------------------------------------------------------

/// The four bytes of a length, the most significant first.
pub open spec fn length_bytes(n: int) -> Seq<u8> {
    seq![
        (n / 16_777_216 % 256) as u8,
        (n / 65_536 % 256) as u8,
        (n / 256 % 256) as u8,
        (n % 256) as u8,
    ]
}

/// The length that the first four bytes of a frame announce.
pub open spec fn announced(bytes: Seq<u8>) -> int {
    bytes[0] * 16_777_216 + bytes[1] * 65_536 + bytes[2] * 256 + bytes[3]
}

/// The frame of a message.
pub open spec fn frame(json: Seq<u8>) -> Seq<u8> {
    length_bytes(json.len() as int) + json
}

/// The error about a frame that is too large.
pub open spec fn too_large(error: LumeError, n: int) -> bool {
    error matches LumeError::Sidecar(why) && why@ == "frame too large: "@ + decimal(n)
        + " bytes"@
}

fn frame_too_large(n: u64) -> (error: LumeError)
    ensures
        too_large(error, n as int),
{
    let mut why: String = "frame too large: ".to_string();
    why.append(decimal_u64(n).as_str());
    why.append(" bytes");
    LumeError::Sidecar(why)
}

/// Frames a message. One that is too large is refused.
pub fn write_frame(json: &[u8]) -> (framed: Result<Vec<u8>, LumeError>)
    ensures
        framed is Ok <==> json@.len() <= MAX_FRAME_BYTES,
        framed matches Ok(bytes) ==> bytes@ == frame(json@),
        framed matches Err(e) ==> too_large(e, json@.len() as int),
{
    let n: usize = json.len();
    if n > MAX_FRAME_BYTES {
        return Err(frame_too_large(n as u64));
    }
    let mut bytes: Vec<u8> = Vec::new();
    bytes.push((n / 16_777_216 % 256) as u8);
    bytes.push((n / 65_536 % 256) as u8);
    bytes.push((n / 256 % 256) as u8);
    bytes.push((n % 256) as u8);
    assert(bytes@ =~= length_bytes(json@.len() as int));
    bytes.extend_from_slice(json);
    assert(bytes@ =~= frame(json@));
    Ok(bytes)
}

/// How far the reading of a frame has come.
#[derive(Clone, Debug, PartialEq, Eq)]
pub enum FrameStep {
    /// So many bytes more are to be read.
    Need(usize),
    /// The frame is complete; this is its JSON.
    Complete(Vec<u8>),
}

/// Looks at what was read of a frame so far. A frame that announces too much is
/// refused as soon as its length is read.
pub fn read_frame(bytes: &[u8]) -> (step: Result<FrameStep, LumeError>)
    ensures
        step is Err <==> bytes@.len() >= 4 && announced(bytes@) > MAX_FRAME_BYTES,
        step matches Err(e) ==> too_large(e, announced(bytes@)),
        step matches Ok(FrameStep::Need(n)) ==> n == if bytes@.len() < 4 {
            4 - bytes@.len()
        } else {
            4 + announced(bytes@) - bytes@.len()
        } && n > 0,
        step matches Ok(FrameStep::Complete(json)) ==> bytes@.len() >= 4 + announced(bytes@)
            && json@ == bytes@.subrange(4, 4 + announced(bytes@)),
{
    let n: usize = bytes.len();
    if n < 4 {
        return Ok(FrameStep::Need(4 - n));
    }
    let length: u64 = bytes[0] as u64 * 16_777_216 + bytes[1] as u64 * 65_536 + bytes[2] as u64
        * 256 + bytes[3] as u64;
    if length > MAX_FRAME_BYTES as u64 {
        return Err(frame_too_large(length));
    }
    let end: usize = 4 + length as usize;
    if n < end {
        return Ok(FrameStep::Need(end - n));
    }
    let mut json: Vec<u8> = Vec::new();
    let mut i: usize = 4;
    while i < end
        invariant
            4 <= i <= end <= bytes@.len(),
            json@ == bytes@.subrange(4, i as int),
        decreases end - i,
    {
        json.push(bytes[i]);
        i += 1;
        assert(json@ =~= bytes@.subrange(4, i as int));
    }
    Ok(FrameStep::Complete(json))
}

/// A frame announces the length of its message, and holds the message after it.
pub proof fn lemma_frame_reads_back(json: Seq<u8>)
    requires
        json.len() <= MAX_FRAME_BYTES,
    ensures
        frame(json).len() == 4 + json.len(),
        announced(frame(json)) == json.len(),
        frame(json).subrange(4, 4 + announced(frame(json))) == json,
        frame(json)[0] * 16_777_216 + frame(json)[1] * 65_536 + frame(json)[2] * 256 + frame(json)[3]
            == json.len(),
        forall|i: int| 0 <= i < json.len() ==> #[trigger] json[i] == frame(json)[4 + i],
{
    let n = json.len() as int;
    let s = frame(json);
    assert(s[0] == n / 16_777_216 % 256);
    assert(s[1] == n / 65_536 % 256);
    assert(s[2] == n / 256 % 256);
    assert(s[3] == n % 256);
    assert(s.subrange(4, 4 + n) =~= json);
}

/// A frame that is not read to its end is not taken for a complete one.
pub proof fn lemma_partial_frame(json: Seq<u8>, n: int)
    requires
        json.len() <= MAX_FRAME_BYTES,
        4 <= n < frame(json).len(),
    ensures
        announced(frame(json).take(n)) == json.len(),
        n < 4 + announced(frame(json).take(n)),
{
    lemma_frame_reads_back(json);
    let s = frame(json);
    let t = s.take(n);
    assert(t[0] == s[0] && t[1] == s[1] && t[2] == s[2] && t[3] == s[3]);
}

// ---------------------------------------------------------------------------
// Responses in error messages
// ---------------------------------------------------------------------------

/// Bytes as a list of numbers.
pub open spec fn list_text(bytes: Seq<u8>) -> Seq<char> {
    "["@ + items_text(bytes) + "]"@
}

/// Bytes as numbers with commas between them.
pub open spec fn items_text(bytes: Seq<u8>) -> Seq<char>
    decreases bytes.len(),
{
    if bytes.len() == 0 {
        ""@
    } else if bytes.len() == 1 {
        decimal(bytes[0] as int)
    } else {
        items_text(bytes.drop_last()) + ", "@ + decimal(bytes.last() as int)
    }
}

/// What came of a unit, as text.
pub open spec fn result_text(result: UnitResult) -> Seq<char> {
    match result {
        UnitResult::Embedded { emb_fp16, thumb_jpeg } => "Ok { emb_fp16: "@ + list_text(emb_fp16@)
            + ", thumb_jpeg: "@ + list_text(thumb_jpeg@) + " }"@,
        UnitResult::Failed { reason } => "Failed { reason: "@ + quoted(reason@) + " }"@,
    }
}

/// An item of a batch, as text.
pub open spec fn item_text(item: BatchItem) -> Seq<char> {
    "BatchItem { unit_idx: "@ + decimal(item.unit_idx as int) + ", result: "@ + result_text(
        item.result,
    ) + " }"@
}

/// The items of a batch, as text, with commas between them.
pub open spec fn batch_text(items: Seq<BatchItem>) -> Seq<char>
    decreases items.len(),
{
    if items.len() == 0 {
        ""@
    } else if items.len() == 1 {
        item_text(items[0])
    } else {
        batch_text(items.drop_last()) + ", "@ + item_text(items.last())
    }
}

/// A response, as text.
pub open spec fn message_text(message: ServerMessage) -> Seq<char> {
    match message {
        ServerMessage::EmbedResponse(r) => "EmbedResponse(EmbedResponse { batch_id: "@ + decimal(
            r.batch_id as int,
        ) + ", items: ["@ + batch_text(r.items@) + "] })"@,
        ServerMessage::EmbedOneResponse(r) => "EmbedOneResponse(EmbedOneResponse { emb_fp16: "@
            + list_text(r.emb_fp16@) + " })"@,
        ServerMessage::Error { message } => "Error { message: "@ + quoted(message@) + " }"@,
    }
}

fn show_bytes(bytes: &Vec<u8>) -> (text: String)
    ensures
        text@ == list_text(bytes@),
{
    let mut inner: String = "".to_string();
    let mut i: usize = 0;
    assert(bytes@.take(0) =~= Seq::empty());
    while i < bytes.len()
        invariant
            i <= bytes@.len(),
            inner@ == items_text(bytes@.take(i as int)),
        decreases bytes@.len() - i,
    {
        if i > 0 {
            inner.append(", ");
            assert(bytes@.take(i + 1).drop_last() =~= bytes@.take(i as int));
        } else {
            proof {
                reveal_strlit("");
            }
        }
        inner.append(decimal_u64(bytes[i] as u64).as_str());
        i += 1;
        assert(inner@ =~= items_text(bytes@.take(i as int)));
    }
    assert(bytes@.take(bytes@.len() as int) =~= bytes@);
    let mut text: String = "[".to_string();
    text.append(inner.as_str());
    text.append("]");
    text
}

fn show_item(item: &BatchItem) -> (text: String)
    ensures
        text@ == item_text(*item),
{
    let mut text: String = "BatchItem { unit_idx: ".to_string();
    text.append(decimal_u64(item.unit_idx as u64).as_str());
    text.append(", result: ");
    let mut result: String = match &item.result {
        UnitResult::Embedded { emb_fp16, thumb_jpeg } => {
            let mut result: String = "Ok { emb_fp16: ".to_string();
            result.append(show_bytes(emb_fp16).as_str());
            result.append(", thumb_jpeg: ");
            result.append(show_bytes(thumb_jpeg).as_str());
            result.append(" }");
            result
        },
        UnitResult::Failed { reason } => {
            let mut result: String = "Failed { reason: ".to_string();
            result.append(debug_text(reason.as_str()).as_str());
            result.append(" }");
            result
        },
    };
    assert(result@ == result_text(item.result));
    text.append(result.as_str());
    text.append(" }");
    text
}

/// A response, as it appears in an error message.
pub fn show_message(message: &ServerMessage) -> (text: String)
    ensures
        text@ == message_text(*message),
{
    match message {
        ServerMessage::EmbedResponse(r) => {
            let mut inner: String = "".to_string();
            let mut i: usize = 0;
            assert(r.items@.take(0) =~= Seq::empty());
            while i < r.items.len()
                invariant
                    i <= r.items@.len(),
                    inner@ == batch_text(r.items@.take(i as int)),
                decreases r.items@.len() - i,
            {
                if i > 0 {
                    inner.append(", ");
                    assert(r.items@.take(i + 1).drop_last() =~= r.items@.take(i as int));
                } else {
                    proof {
                        reveal_strlit("");
                    }
                }
                inner.append(show_item(&r.items[i]).as_str());
                i += 1;
                assert(inner@ =~= batch_text(r.items@.take(i as int)));
            }
            assert(r.items@.take(r.items@.len() as int) =~= r.items@);
            let mut text: String = "EmbedResponse(EmbedResponse { batch_id: ".to_string();
            text.append(decimal_u64(r.batch_id).as_str());
            text.append(", items: [");
            text.append(inner.as_str());
            text.append("] })");
            text
        },
        ServerMessage::EmbedOneResponse(r) => {
            let mut text: String = "EmbedOneResponse(EmbedOneResponse { emb_fp16: ".to_string();
            text.append(show_bytes(&r.emb_fp16).as_str());
            text.append(" })");
            text
        },
        ServerMessage::Error { message } => {
            let mut text: String = "Error { message: ".to_string();
            text.append(debug_text(message.as_str()).as_str());
            text.append(" }");
            text
        },
    }
}

/// A length is announced by four bytes, the most significant first.
pub proof fn lemma_announced(bytes: Seq<u8>)
    requires
        bytes.len() >= 4,
    ensures
        announced(bytes) == ((bytes[0] * 256 + bytes[1]) * 256 + bytes[2]) * 256 + bytes[3],
        0 <= announced(bytes) <= u32::MAX,
{
}

/// A list is that of its parts, with a comma between them; the list of one byte is its
/// numeral.
pub proof fn lemma_list_of_parts(a: Seq<u8>, b: Seq<u8>)
    requires
        a.len() > 0,
        b.len() > 0,
    ensures
        items_text(a + b) == items_text(a) + ", "@ + items_text(b),
        a.len() == 1 ==> items_text(a) == decimal(a[0] as int),
        list_text(a) == "["@ + items_text(a) + "]"@,
    decreases b.len(),
{
    assert((a + b).drop_last() =~= a + b.drop_last());
    assert((a + b).last() == b.last());
    if b.len() == 1 {
        assert(a + b.drop_last() =~= a);
    } else {
        lemma_list_of_parts(a, b.drop_last());
        assert(items_text(a + b) =~= items_text(a) + ", "@ + items_text(b));
    }
}

/// The text of a batch is that of its parts, with a comma between them; the text of one
/// item names its unit and what came of it.
pub proof fn lemma_batch_of_parts(a: Seq<BatchItem>, b: Seq<BatchItem>)
    requires
        a.len() > 0,
        b.len() > 0,
    ensures
        batch_text(a + b) == batch_text(a) + ", "@ + batch_text(b),
        a.len() == 1 ==> batch_text(a) == "BatchItem { unit_idx: "@ + decimal(
            a[0].unit_idx as int,
        ) + ", result: "@ + result_text(a[0].result) + " }"@,
    decreases b.len(),
{
    assert((a + b).drop_last() =~= a + b.drop_last());
    assert((a + b).last() == b.last());
    if b.len() == 1 {
        assert(a + b.drop_last() =~= a);
    } else {
        lemma_batch_of_parts(a, b.drop_last());
        assert(batch_text(a + b) =~= batch_text(a) + ", "@ + batch_text(b));
    }
}

}
