//! What passes between the engine and the caller that parses and decodes access units for it.

use crate::framer::AuInfo;
use crate::objects::{MetadataView, ObjectPayload};
use crate::stream::{ChannelLabel, SyncFacts};
use crate::types::Block;
use vstd::prelude::*;
use vstd::string::StringExecFns;

verus! {

/// Evolution payload id of object audio metadata.
pub const OAMD_PAYLOAD_ID: u32 = 11;

/// An access unit on its way through the decoder.
#[derive(Debug)]
pub struct Unit {
    pub info: AuInfo,
    pub pts: i64,
    pub pts_au_index: u32,
    pub data: Vec<u8>,
}

/// `Unit`, with the bytes as a sequence.
pub struct UnitView {
    pub info: AuInfo,
    pub pts: i64,
    pub pts_au_index: u32,
    pub data: Seq<u8>,
}

impl View for Unit {
    type V = UnitView;

    open spec fn view(&self) -> UnitView {
        UnitView {
            info: self.info,
            pts: self.pts,
            pts_au_index: self.pts_au_index,
            data: self.data@,
        }
    }
}

/// What the caller has to do next.
#[derive(Debug)]
pub enum Action {
    /// Push more input.
    NeedMoreData,
    /// Parse the current access unit with every presentation required, and call `probed`.
    Probe,
    /// Parse and decode the current access unit, and call `decoded`.
    Decode,
    /// Hand out this block with the samples just decoded.
    Output(Block),
}

/// `Block`, with its arrays as sequences.
pub struct BlockView {
    pub sample_rate: u32,
    pub frame_count: int,
    pub channel_count: int,
    pub presentation: int,
    pub flags: u32,
    pub access_unit_frames: int,
    pub pts: i64,
    pub pts_au_index: u32,
    pub layout_serial: u32,
    pub sample_position: int,
    pub input_access_unit: int,
    pub input_frame_offset: int,
    pub speakers: Seq<u8>,
    pub metadata: Option<MetadataView>,
}

impl View for Block {
    type V = BlockView;

    open spec fn view(&self) -> BlockView {
        BlockView {
            sample_rate: self.sample_rate,
            frame_count: self.frame_count as int,
            channel_count: self.channel_count as int,
            presentation: self.presentation as int,
            flags: self.flags,
            access_unit_frames: self.access_unit_frames as int,
            pts: self.pts,
            pts_au_index: self.pts_au_index,
            layout_serial: self.layout_serial,
            sample_position: self.sample_position as int,
            input_access_unit: self.input_access_unit as int,
            input_frame_offset: self.input_frame_offset as int,
            speakers: self.speakers@,
            metadata: match self.metadata {
                Some(m) => Some(m@),
                None => None,
            },
        }
    }
}

/// `Action`, with the block as a mathematical value.
pub enum ActionView {
    NeedMoreData,
    Probe,
    Decode,
    Output(BlockView),
}

impl View for Action {
    type V = ActionView;

    open spec fn view(&self) -> ActionView {
        match self {
            Action::NeedMoreData => ActionView::NeedMoreData,
            Action::Probe => ActionView::Probe,
            Action::Decode => ActionView::Decode,
            Action::Output(b) => ActionView::Output(b@),
        }
    }
}

/// What came of parsing an access unit to learn the stream.
#[derive(Debug)]
pub enum ProbeOutcome {
    /// What the parser returned: its failure, or what the major sync states, if there is one.
    Parsed(Result<Option<SyncFacts>, String>),
    /// The parser panicked with this message.
    Panicked(String),
}

/// Why an access unit was not decoded.
#[derive(Debug)]
pub enum DecodeFailure {
    ParserPanicked(String),
    Parse(String),
    DecoderPanicked(String),
    Decode(String),
}

impl DecodeFailure {
    /// The message that reports the failure.
    pub open spec fn text(self) -> Seq<char> {
        match self {
            DecodeFailure::ParserPanicked(s) => "parser panicked: "@ + s@,
            DecodeFailure::Parse(s) => "parse error: "@ + s@,
            DecodeFailure::DecoderPanicked(s) => "decoder panicked: "@ + s@,
            DecodeFailure::Decode(s) => "decode error: "@ + s@,
        }
    }

    /// Writes the message that reports the failure.
    pub fn message(&self) -> (r: String)
        ensures
            r@ == self.text(),
    {
        match self {
            DecodeFailure::ParserPanicked(s) => String::from_str("parser panicked: ").concat(
                s.as_str(),
            ),
            DecodeFailure::Parse(s) => String::from_str("parse error: ").concat(s.as_str()),
            DecodeFailure::DecoderPanicked(s) => String::from_str("decoder panicked: ").concat(
                s.as_str(),
            ),
            DecodeFailure::Decode(s) => String::from_str("decode error: ").concat(s.as_str()),
        }
    }
}

/// Why an object metadata payload was not read.
#[derive(Debug)]
pub enum OamdFailure {
    Parse(String),
    Panicked(String),
}

impl OamdFailure {
    /// The message that reports the failure.
    pub open spec fn text(self) -> Seq<char> {
        match self {
            OamdFailure::Parse(s) => "OAMD parse error: "@ + s@,
            OamdFailure::Panicked(s) => "OAMD parser panicked: "@ + s@,
        }
    }

    /// Writes the message that reports the failure.
    pub fn message(&self) -> (r: String)
        ensures
            r@ == self.text(),
    {
        match self {
            OamdFailure::Parse(s) => String::from_str("OAMD parse error: ").concat(s.as_str()),
            OamdFailure::Panicked(s) => String::from_str("OAMD parser panicked: ").concat(
                s.as_str(),
            ),
        }
    }
}

/// An object metadata payload of the current access unit, and the frame in it that it is
/// carried at.
#[derive(Debug)]
pub struct OamdArrival {
    pub offset: u32,
    pub payload: Result<ObjectPayload, OamdFailure>,
}

/// A decoded presentation of an access unit, but for its samples.
#[derive(Debug)]
pub struct DecodedUnit {
    pub sampling_frequency: u32,
    /// Frames decoded; no access unit has more than 160.
    pub sample_length: u8,
    pub channel_count: usize,
    pub channel_labels: Vec<ChannelLabel>,
    pub is_duplicate: bool,
}

/// What the parser and decoder have to be told before the next access unit.
#[derive(Clone, Copy, PartialEq, Eq, Debug)]
pub struct CodecOrders {
    /// Restart both at the next major sync.
    pub restart: bool,
    /// The presentations to decode, if they changed.
    pub required: Option<[bool; 4]>,
}

/// An evolution payload of an access unit.
#[derive(Debug)]
pub struct EvoPayload {
    pub id: u32,
    pub sample_offset: Option<u32>,
    pub bytes: Vec<u8>,
}

/// The offsets and bytes of the object metadata among evolution payloads.
pub open spec fn oamd_of(payloads: Seq<EvoPayload>) -> Seq<(u32, Seq<u8>)>
    decreases payloads.len(),
{
    if payloads.len() == 0 {
        Seq::empty()
    } else {
        let p = payloads.last();
        let before = oamd_of(payloads.drop_last());
        if p.id == OAMD_PAYLOAD_ID {
            before.push(
                (
                    match p.sample_offset {
                        Some(n) => n,
                        None => 0,
                    },
                    p.bytes@,
                ),
            )
        } else {
            before
        }
    }
}

/// Takes the object metadata out of the evolution payloads of an access unit, so that the
/// decoder, which would fail the whole access unit on a payload it cannot read, sees none: such
/// a payload is left with id 0 and no bytes.
pub fn take_oamd(payloads: &mut Vec<EvoPayload>) -> (r: Vec<(u32, Vec<u8>)>)
    ensures
        r@.len() == oamd_of(old(payloads)@).len(),
        forall|i: int|
            0 <= i < r@.len() ==> (#[trigger] r@[i]).0 == oamd_of(old(payloads)@)[i].0
                && r@[i].1@ == oamd_of(old(payloads)@)[i].1,
        final(payloads)@.len() == old(payloads)@.len(),
        forall|i: int|
            0 <= i < final(payloads)@.len() ==> if old(payloads)@[i].id == OAMD_PAYLOAD_ID {
                &&& (#[trigger] final(payloads)@[i]).id == 0
                &&& final(payloads)@[i].bytes@.len() == 0
                &&& final(payloads)@[i].sample_offset == old(payloads)@[i].sample_offset
            } else {
                final(payloads)@[i] == old(payloads)@[i]
            },
{
    let ghost before = payloads@;
    let mut out: Vec<(u32, Vec<u8>)> = Vec::new();
    let mut i: usize = 0;
    while i < payloads.len()
        invariant
            i <= payloads.len(),
            payloads@.len() == before.len(),
            out@.len() == oamd_of(before.take(i as int)).len(),
            forall|k: int|
                0 <= k < out@.len() ==> (#[trigger] out@[k]).0 == oamd_of(
                    before.take(i as int),
                )[k].0 && out@[k].1@ == oamd_of(before.take(i as int))[k].1,
            forall|k: int| i <= k < before.len() ==> payloads@[k] == before[k],
            forall|k: int|
                0 <= k < i ==> if before[k].id == OAMD_PAYLOAD_ID {
                    &&& (#[trigger] payloads@[k]).id == 0
                    &&& payloads@[k].bytes@.len() == 0
                    &&& payloads@[k].sample_offset == before[k].sample_offset
                } else {
                    payloads@[k] == before[k]
                },
        decreases payloads.len() - i,
    {
        proof {
            assert(before.take(i + 1).drop_last() =~= before.take(i as int));
            assert(before.take(i + 1).last() == before[i as int]);
        }
        if payloads[i].id == OAMD_PAYLOAD_ID {
            let sample_offset: Option<u32> = payloads[i].sample_offset;
            let mut taken = EvoPayload { id: 0, sample_offset, bytes: Vec::new() };
            std::mem::swap(&mut payloads[i], &mut taken);
            let offset: u32 = match sample_offset {
                Some(n) => n,
                None => 0,
            };
            out.push((offset, taken.bytes));
        }
        i = i + 1;
    }
    proof {
        assert(before.take(i as int) =~= before);
    }
    out
}

/// The message of a panic, given its payload as a string literal or as an owned string.
pub fn panic_message(literal: Option<&str>, owned: Option<&String>) -> (r: String)
    ensures
        r@ == (match (literal, owned) {
            (Some(s), _) => s@,
            (None, Some(s)) => s@,
            (None, None) => "unknown panic"@,
        }),
{
    match literal {
        Some(s) => String::from_str(s),
        None => match owned {
            Some(s) => String::from_str(s.as_str()),
            None => String::from_str("unknown panic"),
        },
    }
}

} // verus!
