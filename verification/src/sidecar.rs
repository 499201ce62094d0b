//! The sidecar behind its socket: what is asked of it, and what its answers
//! mean.
//!
//! Each request opens the socket, writes one frame and reads one frame.

use crate::error::LumeError;
use crate::path::MediaPath;
use crate::protocol::{
    message_text, show_message, BatchItem, ClientMessage, EmbedOneRequest, EmbedRequest,
    EmbedTextRequest, RequestUnit, ServerMessage, UnitResult,
};
use crate::text::{decimal, decimal_u64, lossy_text};
use crate::traits::EmbedOutcome;
use crate::types::{EmbedUnit, Embedding};
use vstd::prelude::*;
use vstd::slice::slice_to_vec;

verus! {

/// How often a connection is tried while nothing listens on the socket yet.
pub const CONNECT_ATTEMPTS: u32 = 100;

/// How long to wait between two attempts, in milliseconds.
pub const CONNECT_PAUSE_MS: u64 = 50;

/// Why a connection failed.
#[derive(Clone, Copy, Debug, PartialEq, Eq, Structural)]
pub enum ConnectFault {
    /// There is no socket.
    NotFound,
    /// There is a socket, and nobody listens.
    Refused,
    /// Anything else.
    Other,
}

/// Whether a failed connection is worth another attempt: `attempts` were made,
/// and the sidecar may still be starting.
pub fn retries_connect(fault: ConnectFault, attempts: u32) -> (again: bool)
    ensures
        again <==> fault != ConnectFault::Other && attempts < CONNECT_ATTEMPTS,
{
    match fault {
        ConnectFault::NotFound | ConnectFault::Refused => attempts < CONNECT_ATTEMPTS,
        ConnectFault::Other => false,
    }
}

/// The sidecar behind a socket.
#[derive(Clone, Debug, PartialEq, Eq)]
pub struct SocketSidecar {
    pub socket_path: MediaPath,
    /// The edge of the thumbnails it is asked for, in pixels.
    pub thumb_px: u32,
}

// ---------------------------------------------------------------------------
// Vectors
// ---------------------------------------------------------------------------

/// The half-precision numbers that bytes hold, each as its bits, the least
/// significant byte first.
pub open spec fn halves(bytes: Seq<u8>) -> Seq<u16> {
    Seq::new(bytes.len() / 2, |i: int| (bytes[2 * i] + 256 * bytes[2 * i + 1]) as u16)
}

/// The message about a vector of an odd number of bytes.
pub open spec fn odd_length(n: int) -> Seq<char> {
    "fp16 embedding has odd byte length "@ + decimal(n)
}

/// Reads a vector of half-precision numbers.
pub fn embedding_from_fp16_bytes(bytes: &[u8]) -> (emb: Result<Embedding, LumeError>)
    ensures
        emb is Ok <==> bytes@.len() % 2 == 0,
        emb matches Ok(e) ==> e.0@ == halves(bytes@),
        emb matches Ok(e) ==> 2 * e.0@.len() == bytes@.len(),
        emb matches Ok(e) ==> forall|i: int|
            0 <= i < e.0@.len() ==> bytes@[2 * i] == #[trigger] e.0@[i] % 256 && bytes@[2 * i + 1]
                == e.0@[i] / 256,
        emb matches Err(e) ==> (e matches LumeError::Sidecar(why) && why@ == odd_length(
            bytes@.len() as int,
        )),
{
    if bytes.len() % 2 != 0 {
        let mut why: String = "fp16 embedding has odd byte length ".to_string();
        why.append(decimal_u64(bytes.len() as u64).as_str());
        return Err(LumeError::Sidecar(why));
    }
    let mut emb: Vec<u16> = Vec::new();
    let count: usize = bytes.len() / 2;
    let mut i: usize = 0;
    while i < count
        invariant
            i <= count,
            2 * count == bytes@.len(),
            bytes@.len() <= usize::MAX,
            emb@ == halves(bytes@).take(i as int),
        decreases count - i,
    {
        emb.push(bytes[2 * i] as u16 + 256 * bytes[2 * i + 1] as u16);
        i += 1;
        assert(emb@ =~= halves(bytes@).take(i as int));
    }
    assert(halves(bytes@).take(count as int) =~= halves(bytes@));
    proof {
        lemma_halves_write_back(bytes@);
    }
    Ok(Embedding(emb))
}

// ---------------------------------------------------------------------------
// Requests
// ---------------------------------------------------------------------------

impl SocketSidecar {
    /// The sidecar behind a socket, asked for thumbnails of a size.
    pub fn new(socket_path: MediaPath, thumb_px: u32) -> (sidecar: SocketSidecar)
        ensures
            sidecar.socket_path@ == socket_path@,
            sidecar.thumb_px == thumb_px,
    {
        SocketSidecar { socket_path, thumb_px }
    }

    /// The request to embed a batch. Units are numbered by their positions.
    pub fn embed_request(&self, units: &[EmbedUnit]) -> (message: ClientMessage)
        ensures
            message matches ClientMessage::Embed(r) && {
                &&& r.batch_id == 0
                &&& r.thumb_px == self.thumb_px
                &&& r.units@.len() == units@.len()
                &&& forall|i: int|
                    0 <= i < units@.len() ==> {
                        &&& (#[trigger] r.units@[i]).unit_idx == i as u32
                        &&& r.units@[i].path@ == lossy_text(units@[i].path@)
                        &&& r.units@[i].frame_ts == units@[i].frame_ts
                    }
            },
    {
        let mut asked: Vec<RequestUnit> = Vec::new();
        let mut i: usize = 0;
        while i < units.len()
            invariant
                i <= units@.len(),
                asked@.len() == i,
                forall|k: int|
                    0 <= k < i ==> {
                        &&& (#[trigger] asked@[k]).unit_idx == k as u32
                        &&& asked@[k].path@ == lossy_text(units@[k].path@)
                        &&& asked@[k].frame_ts == units@[k].frame_ts
                    },
            decreases units@.len() - i,
        {
            asked.push(
                RequestUnit {
                    unit_idx: #[verifier::truncate] (i as u32),
                    path: units[i].path.to_text(),
                    frame_ts: units[i].frame_ts,
                },
            );
            i += 1;
        }
        ClientMessage::Embed(EmbedRequest { batch_id: 0, thumb_px: self.thumb_px, units: asked })
    }

    /// The request to embed one image.
    pub fn embed_one_request(&self, image: &[u8]) -> (message: ClientMessage)
        ensures
            message matches ClientMessage::EmbedOne(r) && r.image_bytes@ == image@,
    {
        ClientMessage::EmbedOne(EmbedOneRequest { image_bytes: slice_to_vec(image) })
    }

    /// The request to embed a query text.
    pub fn embed_text_request(&self, query: &str) -> (message: ClientMessage)
        ensures
            message matches ClientMessage::EmbedText(r) && r.text@ == query@,
    {
        ClientMessage::EmbedText(EmbedTextRequest { text: query.to_string() })
    }
}

// ---------------------------------------------------------------------------
// Answers
// ---------------------------------------------------------------------------

/// The message about an answer that was not asked for.
pub open spec fn unexpected(message: ServerMessage) -> Seq<char> {
    "unexpected sidecar response: "@ + message_text(message)
}

/// What is wrong with an item of an answer to a batch of `n` units.
pub open spec fn item_fault(item: BatchItem, n: nat) -> Option<Seq<char>> {
    if item.unit_idx >= n {
        Some("sidecar returned out-of-range unit_idx "@ + decimal(item.unit_idx as int))
    } else {
        match item.result {
            UnitResult::Embedded { emb_fp16, .. } => if emb_fp16@.len() % 2 != 0 {
                Some(odd_length(emb_fp16@.len() as int))
            } else {
                None
            },
            UnitResult::Failed { .. } => None,
        }
    }
}

/// What is wrong first with an answer to a batch of `n` units.
pub open spec fn first_fault(items: Seq<BatchItem>, n: nat) -> Option<Seq<char>>
    decreases items.len(),
{
    if items.len() == 0 {
        None
    } else {
        match first_fault(items.drop_last(), n) {
            Some(why) => Some(why),
            None => item_fault(items.last(), n),
        }
    }
}

/// The last item of an answer that is about a unit.
pub open spec fn last_about(items: Seq<BatchItem>, unit: int) -> Option<BatchItem>
    decreases items.len(),
{
    if items.len() == 0 {
        None
    } else if items.last().unit_idx == unit {
        Some(items.last())
    } else {
        last_about(items.drop_last(), unit)
    }
}

/// Whether an outcome is what the answer says of a unit. A unit that it says
/// nothing of has failed.
pub open spec fn answers(outcome: EmbedOutcome, said: Option<BatchItem>) -> bool {
    match said {
        Some(item) => match item.result {
            UnitResult::Embedded { emb_fp16, thumb_jpeg } => {
                &&& outcome matches EmbedOutcome::Embedded { emb, thumbnail_jpeg }
                &&& emb.0@ == halves(emb_fp16@)
                &&& thumbnail_jpeg@ == thumb_jpeg@
            },
            UnitResult::Failed { reason } => outcome matches EmbedOutcome::Failed { reason: why }
                && why@ == reason@,
        },
        None => outcome matches EmbedOutcome::Failed { reason } && reason@
            == "missing sidecar result"@,
    }
}

fn unexpected_response(message: &ServerMessage) -> (error: LumeError)
    ensures
        error matches LumeError::Sidecar(why) && why@ == unexpected(*message),
{
    let mut why: String = "unexpected sidecar response: ".to_string();
    why.append(show_message(message).as_str());
    LumeError::Sidecar(why)
}

fn outcome_of(item: &BatchItem, n: usize) -> (outcome: Result<EmbedOutcome, LumeError>)
    ensures
        outcome is Ok <==> item_fault(*item, n as nat) is None,
        outcome matches Ok(o) ==> answers(o, Some(*item)),
        outcome matches Err(e) ==> (e matches LumeError::Sidecar(why) && Some(why@) == item_fault(
            *item,
            n as nat,
        )),
{
    if item.unit_idx as u64 >= n as u64 {
        let mut why: String = "sidecar returned out-of-range unit_idx ".to_string();
        why.append(decimal_u64(item.unit_idx as u64).as_str());
        return Err(LumeError::Sidecar(why));
    }
    match &item.result {
        UnitResult::Embedded { emb_fp16, thumb_jpeg } => match embedding_from_fp16_bytes(
            emb_fp16.as_slice(),
        ) {
            Ok(emb) => Ok(
                EmbedOutcome::Embedded { emb, thumbnail_jpeg: slice_to_vec(thumb_jpeg.as_slice()) },
            ),
            Err(e) => Err(e),
        },
        UnitResult::Failed { reason } => Ok(EmbedOutcome::Failed { reason: reason.clone() }),
    }
}

fn missing_results(n: usize) -> (outcomes: Vec<EmbedOutcome>)
    ensures
        outcomes@.len() == n,
        forall|i: int| 0 <= i < n ==> answers(#[trigger] outcomes@[i], None),
{
    let mut outcomes: Vec<EmbedOutcome> = Vec::new();
    while outcomes.len() < n
        invariant
            outcomes@.len() <= n,
            forall|i: int| 0 <= i < outcomes@.len() ==> answers(#[trigger] outcomes@[i], None),
        decreases n - outcomes@.len(),
    {
        outcomes.push(EmbedOutcome::Failed { reason: "missing sidecar result".to_string() });
    }
    outcomes
}

impl SocketSidecar {
    /// What came of a batch of `n` units, in the order of the units, whatever
    /// the order of the answer.
    pub fn embed_reply(&self, n: usize, message: &ServerMessage) -> (outcomes: Result<
        Vec<EmbedOutcome>,
        LumeError,
    >)
        ensures
            match *message {
                ServerMessage::EmbedResponse(r) => {
                    &&& outcomes is Ok <==> first_fault(r.items@, n as nat) is None
                    &&& outcomes matches Ok(o) ==> {
                        &&& o@.len() == n
                        &&& forall|i: int|
                            0 <= i < n ==> answers(#[trigger] o@[i], last_about(r.items@, i))
                    }
                    &&& outcomes matches Err(e) ==> (e matches LumeError::Sidecar(why) && Some(why@)
                        == first_fault(r.items@, n as nat))
                },
                ServerMessage::Error { message: text } => outcomes matches Err(
                    LumeError::Sidecar(why),
                ) && why@ == text@,
                other => outcomes matches Err(LumeError::Sidecar(why)) && why@ == unexpected(other),
            },
    {
        match message {
            ServerMessage::EmbedResponse(r) => {
                let mut outcomes = missing_results(n);
                let mut i: usize = 0;
                while i < r.items.len()
                    invariant
                        *message == ServerMessage::EmbedResponse(*r),
                        i <= r.items@.len(),
                        outcomes@.len() == n,
                        first_fault(r.items@.take(i as int), n as nat) is None,
                        forall|u: int|
                            0 <= u < n ==> answers(
                                #[trigger] outcomes@[u],
                                last_about(r.items@.take(i as int), u),
                            ),
                    decreases r.items@.len() - i,
                {
                    let item = &r.items[i];
                    let ghost now = r.items@.take(i + 1);
                    proof {
                        assert(now.drop_last() =~= r.items@.take(i as int));
                        assert(now.last() == *item);
                    }
                    match outcome_of(item, n) {
                        Ok(outcome) => {
                            outcomes.set(item.unit_idx as usize, outcome);
                        },
                        Err(e) => {
                            proof {
                                assert(first_fault(now, n as nat) == item_fault(*item, n as nat));
                                lemma_fault_stays(r.items@, i + 1, n as nat);
                            }
                            return Err(e);
                        },
                    }
                    i += 1;
                }
                assert(r.items@.take(r.items@.len() as int) =~= r.items@);
                Ok(outcomes)
            },
            ServerMessage::Error { message: text } => Err(LumeError::Sidecar(text.clone())),
            other => Err(unexpected_response(other)),
        }
    }

    /// The vector of one image or one text.
    fn vector_reply(&self, message: &ServerMessage) -> (emb: Result<Embedding, LumeError>)
        ensures
            vector_answer(*message, emb),
    {
        match message {
            ServerMessage::EmbedOneResponse(r) => embedding_from_fp16_bytes(r.emb_fp16.as_slice()),
            ServerMessage::Error { message: text } => Err(LumeError::Sidecar(text.clone())),
            other => Err(unexpected_response(other)),
        }
    }

    /// The vector of one image, from the answer.
    pub fn embed_one_reply(&self, message: &ServerMessage) -> (emb: Result<Embedding, LumeError>)
        ensures
            vector_answer(*message, emb),
    {
        self.vector_reply(message)
    }

    /// The vector of a query text, from the answer.
    pub fn embed_text_reply(&self, message: &ServerMessage) -> (emb: Result<Embedding, LumeError>)
        ensures
            vector_answer(*message, emb),
    {
        self.vector_reply(message)
    }
}

/// Whether `emb` is what an answer says of one image or one text.
pub open spec fn vector_answer(message: ServerMessage, emb: Result<Embedding, LumeError>) -> bool {
    match message {
        ServerMessage::EmbedOneResponse(r) => {
            &&& emb is Ok <==> r.emb_fp16@.len() % 2 == 0
            &&& emb matches Ok(e) ==> e.0@ == halves(r.emb_fp16@)
            &&& emb matches Err(e) ==> (e matches LumeError::Sidecar(why) && why@ == odd_length(
                r.emb_fp16@.len() as int,
            ))
        },
        ServerMessage::Error { message: text } => emb matches Err(LumeError::Sidecar(why)) && why@
            == text@,
        other => emb matches Err(LumeError::Sidecar(why)) && why@ == unexpected(other),
    }
}

proof fn lemma_fault_stays(items: Seq<BatchItem>, k: int, n: nat)
    requires
        0 <= k <= items.len(),
        first_fault(items.take(k), n) is Some,
    ensures
        first_fault(items, n) == first_fault(items.take(k), n),
    decreases items.len(),
{
    if k == items.len() {
        assert(items.take(k) =~= items);
    } else {
        assert(items.drop_last().take(k) =~= items.take(k));
        lemma_fault_stays(items.drop_last(), k, n);
    }
}

// ---------------------------------------------------------------------------
// Laws
// ---------------------------------------------------------------------------

/// Where every unit is answered once, each gets its own result: the order of the
/// answer does not matter.
pub proof fn lemma_results_realign(items: Seq<BatchItem>, at: int)
    requires
        0 <= at < items.len(),
        forall|i: int, j: int|
            0 <= i < j < items.len() ==> (#[trigger] items[i]).unit_idx != (
            #[trigger] items[j]).unit_idx,
    ensures
        last_about(items, items[at].unit_idx as int) == Some(items[at]),
    decreases items.len(),
{
    if at < items.len() - 1 {
        let init = items.drop_last();
        assert(init[at] == items[at]);
        assert(forall|i: int| 0 <= i < init.len() ==> init[i] == items[i]);
        lemma_results_realign(init, at);
    }
}

/// A unit that no item is about is answered by nothing.
pub proof fn lemma_missing_result(items: Seq<BatchItem>, unit: int)
    requires
        forall|i: int| 0 <= i < items.len() ==> (#[trigger] items[i]).unit_idx != unit,
    ensures
        last_about(items, unit) is None,
    decreases items.len(),
{
    if items.len() > 0 {
        let init = items.drop_last();
        assert(forall|i: int| 0 <= i < init.len() ==> init[i] == items[i]);
        lemma_missing_result(init, unit);
    }
}

/// No bit of a vector is lost: written back as two bytes each, the least
/// significant first, its elements are the bytes that came in.
pub proof fn lemma_halves_write_back(bytes: Seq<u8>)
    requires
        bytes.len() % 2 == 0,
    ensures
        2 * halves(bytes).len() == bytes.len(),
        forall|i: int|
            0 <= i < halves(bytes).len() ==> bytes[2 * i] == #[trigger] halves(bytes)[i] % 256
                && bytes[2 * i + 1] == halves(bytes)[i] / 256,
{
    assert forall|i: int| 0 <= i < halves(bytes).len() implies bytes[2 * i] == #[trigger] halves(
        bytes,
    )[i] % 256 && bytes[2 * i + 1] == halves(bytes)[i] / 256 by {
        assert(halves(bytes)[i] == bytes[2 * i] + 256 * bytes[2 * i + 1]);
    }
}

/// Answers with different bytes give different vectors.
pub proof fn lemma_halves_tell_apart(a: Seq<u8>, b: Seq<u8>)
    requires
        a.len() % 2 == 0,
        b.len() % 2 == 0,
        halves(a) == halves(b),
    ensures
        a == b,
{
    lemma_halves_write_back(a);
    lemma_halves_write_back(b);
    assert forall|k: int| 0 <= k < a.len() implies a[k] == b[k] by {
        let i = k / 2;
        assert(k == 2 * i || k == 2 * i + 1);
        let (x, y) = (halves(a)[i], halves(b)[i]);
        assert(x == y);
        assert(a[2 * i] == x % 256 && a[2 * i + 1] == x / 256);
        assert(b[2 * i] == y % 256 && b[2 * i + 1] == y / 256);
    }
    assert(a =~= b);
}

/// Whether a vector is the one that bytes hold, by the bytes of its elements.
pub open spec fn holds_bytes(emb: Embedding, bytes: Seq<u8>) -> bool {
    &&& 2 * emb.0@.len() == bytes.len()
    &&& forall|i: int|
        0 <= i < emb.0@.len() ==> bytes[2 * i] == #[trigger] emb.0@[i] % 256 && bytes[2 * i + 1]
            == emb.0@[i] / 256
}

/// The vector of one image or one text is the one that was sent, bit for bit, and
/// a vector comes only from an answer that holds one.
pub proof fn lemma_vector_answer(message: ServerMessage, emb: Result<Embedding, LumeError>)
    requires
        vector_answer(message, emb),
    ensures
        emb matches Ok(e) ==> (message matches ServerMessage::EmbedOneResponse(r) && holds_bytes(
            e,
            r.emb_fp16@,
        )),
        message matches ServerMessage::EmbedOneResponse(r) && r.emb_fp16@.len() % 2 == 0
            ==> emb is Ok,
        message matches ServerMessage::Error { message: text } ==> (emb matches Err(
            LumeError::Sidecar(why),
        ) && why@ == text@),
{
    if let ServerMessage::EmbedOneResponse(r) = message {
        if r.emb_fp16@.len() % 2 == 0 {
            lemma_halves_write_back(r.emb_fp16@);
        }
    }
}

/// Each unit gets what the answer says of it, whatever the order of the answer: a
/// vector bit for bit with its thumbnail, or the reason of its failure. A unit
/// that the answer says nothing of has failed.
pub proof fn lemma_reply_by_unit(items: Seq<BatchItem>, n: nat, outcomes: Seq<EmbedOutcome>)
    requires
        first_fault(items, n) is None,
        outcomes.len() == n,
        forall|i: int| 0 <= i < n ==> answers(#[trigger] outcomes[i], last_about(items, i)),
        forall|i: int, j: int|
            0 <= i < j < items.len() ==> (#[trigger] items[i]).unit_idx != (
            #[trigger] items[j]).unit_idx,
    ensures
        forall|a: int|
            0 <= a < items.len() ==> {
                let unit = (#[trigger] items[a]).unit_idx as int;
                &&& unit < n
                &&& items[a].result matches UnitResult::Embedded { emb_fp16, thumb_jpeg } ==> (
                outcomes[unit] matches EmbedOutcome::Embedded { emb, thumbnail_jpeg }
                    && holds_bytes(emb, emb_fp16@) && thumbnail_jpeg@ == thumb_jpeg@)
                &&& items[a].result matches UnitResult::Failed { reason } ==> (
                outcomes[unit] matches EmbedOutcome::Failed { reason: why } && why@ == reason@)
            },
        forall|u: int|
            0 <= u < n && (forall|a: int|
                0 <= a < items.len() ==> (#[trigger] items[a]).unit_idx != u) ==> (
            #[trigger] outcomes[u] matches EmbedOutcome::Failed { reason } && reason@
                == "missing sidecar result"@),
{
    lemma_faults(items, n);
    assert forall|a: int| 0 <= a < items.len() implies {
        let unit = (#[trigger] items[a]).unit_idx as int;
        &&& unit < n
        &&& items[a].result matches UnitResult::Embedded { emb_fp16, thumb_jpeg } ==> (
        outcomes[unit] matches EmbedOutcome::Embedded { emb, thumbnail_jpeg } && holds_bytes(
            emb,
            emb_fp16@,
        ) && thumbnail_jpeg@ == thumb_jpeg@)
        &&& items[a].result matches UnitResult::Failed { reason } ==> (
        outcomes[unit] matches EmbedOutcome::Failed { reason: why } && why@ == reason@)
    } by {
        assert(!faulty(items[a], n));
        lemma_results_realign(items, a);
        let unit = items[a].unit_idx as int;
        assert(answers(outcomes[unit], last_about(items, unit)));
        if let UnitResult::Embedded { emb_fp16, thumb_jpeg } = items[a].result {
            lemma_halves_write_back(emb_fp16@);
        }
    }
    assert forall|u: int|
        0 <= u < n && (forall|a: int|
            0 <= a < items.len() ==> (#[trigger] items[a]).unit_idx != u) implies (
    #[trigger] outcomes[u] matches EmbedOutcome::Failed { reason } && reason@
        == "missing sidecar result"@) by {
        lemma_missing_result(items, u);
        assert(answers(outcomes[u], last_about(items, u)));
    }
}

/// Whether an item is about a unit that was not asked for, or holds a vector of an
/// odd number of bytes.
pub open spec fn faulty(item: BatchItem, n: nat) -> bool {
    item.unit_idx >= n || (item.result matches UnitResult::Embedded { emb_fp16, .. }
        && emb_fp16@.len() % 2 == 1)
}

/// An answer is refused exactly where an item of it is about no unit that was
/// asked for, or holds half a number.
pub proof fn lemma_faults(items: Seq<BatchItem>, n: nat)
    ensures
        first_fault(items, n) is None <==> forall|a: int|
            0 <= a < items.len() ==> !faulty(#[trigger] items[a], n),
    decreases items.len(),
{
    if items.len() > 0 {
        let init = items.drop_last();
        lemma_faults(init, n);
        assert(forall|a: int| 0 <= a < init.len() ==> init[a] == items[a]);
        if first_fault(items, n) is None {
            assert forall|a: int| 0 <= a < items.len() implies !faulty(#[trigger] items[a], n) by {
                if a < init.len() {
                    assert(!faulty(init[a], n));
                }
            }
        }
        if forall|a: int| 0 <= a < items.len() ==> !faulty(#[trigger] items[a], n) {
            assert forall|a: int| 0 <= a < init.len() implies !faulty(#[trigger] init[a], n) by {
                assert(!faulty(items[a], n));
            }
            assert(!faulty(items[items.len() - 1], n));
        }
    }
}

}
