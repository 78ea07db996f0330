//! The values that decoders hand to their callers, and the codes they are written in.

use vstd::prelude::*;

verus! {

pub const API_VERSION: u32 = 1;

pub const MAX_CHANNELS: usize = 16;

pub const MAX_BLOCK_FRAMES: usize = 160;

/// Presentations a stream can carry.
pub const MAX_PRESENTATIONS: usize = 4;

/// The pts of an access unit whose push is not known.
pub const NO_PTS: i64 = -0x8000_0000_0000_0000;

pub type Status = i32;

pub const OK: Status = 0;

pub const NEED_MORE_DATA: Status = 1;

pub const ERR_NULL: Status = -1;

pub const ERR_INVALID_ARGUMENT: Status = -2;

pub const ERR_NOT_READY: Status = -3;

pub const ERR_BUFFER_FULL: Status = -4;

pub const ERR_PANIC: Status = -5;

pub const PRESENTATION_HIGHEST: i32 = -1;

pub const PRESENTATION_HIGHEST_CHANNEL_BASED: i32 = -2;

pub const SPEAKER_LFE: u8 = 3;

pub const SPEAKER_LFE2: u8 = 23;

pub const SPEAKER_OBJECT: u8 = 254;

pub const SPEAKER_UNKNOWN: u8 = 255;

pub const ELEMENT_BED: u8 = 0;

pub const ELEMENT_LFE: u8 = 1;

pub const ELEMENT_OBJECT: u8 = 2;

pub const ELEMENT_ISF: u8 = 3;

pub const EL_ACTIVE: u32 = 0x001;

pub const EL_CHANGED: u32 = 0x002;

pub const EL_SNAP: u32 = 0x004;

pub const EL_ELEVATION: u32 = 0x008;

pub const EL_SCREEN_REF: u32 = 0x010;

pub const EL_DISTANCE: u32 = 0x020;

pub const EL_DIVERGENCE: u32 = 0x040;

pub const EL_TRIM_BYPASS: u32 = 0x080;

pub const EL_HEAD_TRACK_DISABLE: u32 = 0x100;

pub const WARP_NOT_SIGNALLED: i32 = -1;

pub const BLOCK_DISCONTINUITY: u32 = 0x01;

pub const BLOCK_LAYOUT_CHANGED: u32 = 0x02;

pub const BLOCK_HAS_METADATA: u32 = 0x04;

pub const BLOCK_METADATA_UPDATED: u32 = 0x08;

pub const BLOCK_INPUT_OFFSET_ESTIMATED: u32 = 0x10;

pub const FORMAT_TRUEHD: u32 = 0;

pub const FORMAT_MLP: u32 = 1;

pub const PTYPE_ABSENT: i32 = 0;

pub const PTYPE_INDEPENDENT: i32 = 1;

pub const PTYPE_DOWNMIX: i32 = 2;

pub const PTYPE_COPY: i32 = 3;

/// An IEEE 754 single-precision number by its bit pattern. Nothing here computes with one; they
/// are carried, and compared for equality.
#[derive(Clone, Copy, PartialEq, Eq, Structural, Debug)]
pub struct Single {
    pub bits: u32,
}

/// Positive zero.
pub const ZERO_BITS: u32 = 0;

/// Negative infinity.
pub const NEG_INFINITY_BITS: u32 = 0xFF80_0000;

impl Single {
    /// Sign bit aside.
    pub open spec fn magnitude(self) -> int {
        self.bits as int % 0x8000_0000
    }

    pub open spec fn is_nan(self) -> bool {
        self.magnitude() > 0x7F80_0000
    }

    /// Whether two numbers are equal: neither is NaN, and they have the same bits or are both
    /// zero.
    pub open spec fn equals(self, other: Single) -> bool {
        &&& !self.is_nan()
        &&& !other.is_nan()
        &&& self.bits == other.bits || (self.magnitude() == 0 && other.magnitude() == 0)
    }

    /// Numeric equality.
    pub fn same(self, other: Single) -> (r: bool)
        ensures
            r == self.equals(other),
    {
        let a: u32 = self.bits % 0x8000_0000;
        let b: u32 = other.bits % 0x8000_0000;
        a <= 0x7F80_0000 && b <= 0x7F80_0000 && (self.bits == other.bits || (a == 0 && b == 0))
    }
}

/// One channel's object metadata.
#[derive(Clone, Copy, Debug)]
pub struct Element {
    pub kind: u8,
    pub speaker: u8,
    pub zone: u8,
    pub headphone_mode: u8,
    pub flags: u32,
    pub position: [Single; 3],
    pub gain: Single,
    pub gain_db: Single,
    pub size: [Single; 3],
    pub divergence: Single,
    pub priority: Single,
    pub distance: Single,
    pub screen_factor: Single,
    pub depth_factor: Single,
    pub dialog: u8,
}

/// Whether two triples of numbers are equal.
pub open spec fn equal_triples(a: [Single; 3], b: [Single; 3]) -> bool {
    a[0].equals(b[0]) && a[1].equals(b[1]) && a[2].equals(b[2])
}

fn same_triples(a: &[Single; 3], b: &[Single; 3]) -> (r: bool)
    ensures
        r == equal_triples(*a, *b),
{
    a[0].same(b[0]) && a[1].same(b[1]) && a[2].same(b[2])
}

impl Element {
    /// A silent object at the origin, with nothing signalled.
    pub open spec fn blank() -> Element {
        let zero = Single { bits: ZERO_BITS };
        Element {
            kind: ELEMENT_OBJECT,
            speaker: SPEAKER_OBJECT,
            zone: 0,
            headphone_mode: 255,
            flags: 0,
            position: [zero, zero, zero],
            gain: zero,
            gain_db: Single { bits: NEG_INFINITY_BITS },
            size: [zero, zero, zero],
            divergence: zero,
            priority: zero,
            distance: zero,
            screen_factor: zero,
            depth_factor: zero,
            dialog: 255,
        }
    }

    /// The CHANGED marker set or cleared.
    pub open spec fn marked(self, changed: bool) -> Element {
        Element {
            flags: if changed {
                (self.flags & !EL_CHANGED) | EL_CHANGED
            } else {
                self.flags & !EL_CHANGED
            },
            ..self
        }
    }

    /// Equal in everything a renderer acts on, ignoring the CHANGED marker itself.
    pub open spec fn equal_values(self, other: Element) -> bool {
        &&& self.kind == other.kind
        &&& self.speaker == other.speaker
        &&& self.zone == other.zone
        &&& self.headphone_mode == other.headphone_mode
        &&& self.flags & !EL_CHANGED == other.flags & !EL_CHANGED
        &&& equal_triples(self.position, other.position)
        &&& self.gain.equals(other.gain)
        &&& self.gain_db.equals(other.gain_db)
        &&& equal_triples(self.size, other.size)
        &&& self.divergence.equals(other.divergence)
        &&& self.priority.equals(other.priority)
        &&& self.distance.equals(other.distance)
        &&& self.screen_factor.equals(other.screen_factor)
        &&& self.depth_factor.equals(other.depth_factor)
        &&& self.dialog == other.dialog
    }

    /// A silent object at the origin, with nothing signalled.
    pub fn empty() -> (e: Element)
        ensures
            e == Element::blank(),
    {
        let zero = Single { bits: ZERO_BITS };
        let e = Element {
            kind: ELEMENT_OBJECT,
            speaker: SPEAKER_OBJECT,
            zone: 0,
            headphone_mode: 255,
            flags: 0,
            position: [zero, zero, zero],
            gain: zero,
            gain_db: Single { bits: NEG_INFINITY_BITS },
            size: [zero, zero, zero],
            divergence: zero,
            priority: zero,
            distance: zero,
            screen_factor: zero,
            depth_factor: zero,
            dialog: 255,
        };
        proof {
            assert(e.position =~= Element::blank().position);
            assert(e.size =~= Element::blank().size);
        }
        e
    }

    /// Equal in everything a renderer acts on, ignoring the CHANGED marker itself.
    pub fn same_values(&self, other: &Element) -> (r: bool)
        ensures
            r == self.equal_values(*other),
    {
        self.kind == other.kind && self.speaker == other.speaker && self.zone == other.zone
            && self.headphone_mode == other.headphone_mode && self.dialog == other.dialog
            && self.flags & !EL_CHANGED == other.flags & !EL_CHANGED && same_triples(
            &self.position,
            &other.position,
        ) && self.gain.same(other.gain) && self.gain_db.same(other.gain_db) && same_triples(
            &self.size,
            &other.size,
        ) && self.divergence.same(other.divergence) && self.priority.same(other.priority)
            && self.distance.same(other.distance) && self.screen_factor.same(other.screen_factor)
            && self.depth_factor.same(other.depth_factor)
    }

    /// Sets or clears the CHANGED marker.
    pub fn mark(self, changed: bool) -> (e: Element)
        ensures
            e == self.marked(changed),
    {
        let mut e = self;
        e.flags = self.flags & !EL_CHANGED;
        if changed {
            e.flags = e.flags | EL_CHANGED;
        }
        e
    }
}

pub type Elements = [Element; 16];

/// An update of all elements that starts within a block.
#[derive(Clone, Copy, Debug)]
pub struct MetadataUpdate {
    pub frame_offset: u32,
    pub ramp_frames: u32,
    pub elements: Elements,
}

/// Object metadata attached to a block: the updates that start in it, and the elements as they
/// stand at its end.
#[derive(Debug)]
pub struct Metadata {
    pub element_count: u32,
    pub bed_count: u32,
    pub isf_count: u32,
    pub dynamic_count: u32,
    pub warp_mode: i32,
    pub updates: Vec<MetadataUpdate>,
    pub elements: Elements,
}

/// A decoded block, but for its samples.
#[derive(Debug)]
pub struct Block {
    pub sample_rate: u32,
    pub frame_count: u32,
    pub channel_count: u32,
    pub presentation: u32,
    pub flags: u32,
    pub access_unit_frames: u32,
    pub pts: i64,
    pub pts_au_index: u32,
    pub layout_serial: u32,
    pub sample_position: u64,
    pub input_access_unit: u64,
    pub input_frame_offset: u64,
    pub speakers: [u8; 16],
    pub metadata: Option<Metadata>,
}

/// What a stream says of one of its presentations.
#[derive(Clone, Copy, PartialEq, Eq, Debug)]
pub struct PresentationInfo {
    pub ptype: i32,
    pub source: i32,
    pub channel_count: u32,
    pub speakers: [u8; 16],
}

impl PresentationInfo {
    /// A presentation that the stream does not carry.
    pub open spec fn is_absent(self) -> bool {
        &&& self.ptype == PTYPE_ABSENT
        &&& self.source == -1
        &&& self.channel_count == 0
        &&& forall|i: int| 0 <= i < MAX_CHANNELS ==> self.speakers[i] == SPEAKER_UNKNOWN
    }

    /// A presentation that the stream does not carry.
    pub fn absent() -> (r: PresentationInfo)
        ensures
            r.is_absent(),
    {
        PresentationInfo {
            ptype: PTYPE_ABSENT,
            source: -1,
            channel_count: 0,
            speakers: [SPEAKER_UNKNOWN; 16],
        }
    }
}

/// What is known of the stream being decoded.
#[derive(Clone, Copy, PartialEq, Eq, Debug)]
pub struct StreamInfo {
    pub format: u32,
    pub sample_rate: u32,
    pub access_unit_frames: u32,
    pub substream_count: u32,
    pub selected_presentation: u32,
    pub immersive: u32,
    pub has_objects: u32,
    pub oamd_seen: u32,
    pub layout_serial: u32,
    pub presentations: [PresentationInfo; 4],
}

/// Counts since creation or reset.
#[derive(Clone, Copy, PartialEq, Eq, Structural, Debug)]
pub struct Stats {
    pub bytes_pushed: u64,
    pub bytes_pending: u64,
    pub access_units_decoded: u64,
    pub blocks_output: u64,
    pub frames_output: u64,
    pub access_units_skipped: u64,
    pub duplicate_access_units: u64,
    pub decode_errors: u64,
    pub sync_errors: u64,
    pub oamd_payloads: u64,
    pub oamd_errors: u64,
    pub metadata_updates: u64,
}

impl Stats {
    /// Nothing counted.
    pub open spec fn zero() -> Stats {
        Stats {
            bytes_pushed: 0,
            bytes_pending: 0,
            access_units_decoded: 0,
            blocks_output: 0,
            frames_output: 0,
            access_units_skipped: 0,
            duplicate_access_units: 0,
            decode_errors: 0,
            sync_errors: 0,
            oamd_payloads: 0,
            oamd_errors: 0,
            metadata_updates: 0,
        }
    }
}

impl Default for Stats {
    fn default() -> (r: Stats)
        ensures
            r == Stats::zero(),
    {
        Stats {
            bytes_pushed: 0,
            bytes_pending: 0,
            access_units_decoded: 0,
            blocks_output: 0,
            frames_output: 0,
            access_units_skipped: 0,
            duplicate_access_units: 0,
            decode_errors: 0,
            sync_errors: 0,
            oamd_payloads: 0,
            oamd_errors: 0,
            metadata_updates: 0,
        }
    }
}

/// Setting the CHANGED marker makes it readable, clearing it removes it, and neither touches
/// what is compared.
pub proof fn law_marker(e: Element, changed: bool)
    ensures
        (e.marked(changed).flags & EL_CHANGED == EL_CHANGED) == changed,
        e.marked(changed).flags & !EL_CHANGED == e.flags & !EL_CHANGED,
{
    let f = e.flags;
    assert(((f & !2u32) | 2u32) & 2u32 == 2u32) by (bit_vector);
    assert((f & !2u32) & 2u32 == 0u32) by (bit_vector);
    assert(((f & !2u32) | 2u32) & !2u32 == f & !2u32) by (bit_vector);
    assert((f & !2u32) & !2u32 == f & !2u32) by (bit_vector);
}

} // verus!
