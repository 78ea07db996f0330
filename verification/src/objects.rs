//! Object audio metadata: turning OAMD payloads into timed element updates and handing each
//! update out with the block that contains its start.

use crate::stream::{bed_label, bed_speaker, speaker_of_oamd_bed, BED_LABELS};
use crate::text::{decimal, number};
use crate::types::{
    Element, Elements, Metadata, MetadataUpdate, Single, ELEMENT_BED, ELEMENT_ISF, ELEMENT_LFE,
    ELEMENT_OBJECT, EL_ACTIVE, EL_DISTANCE, EL_DIVERGENCE, EL_ELEVATION, EL_HEAD_TRACK_DISABLE,
    EL_SCREEN_REF, EL_SNAP, EL_TRIM_BYPASS, MAX_CHANNELS, NEG_INFINITY_BITS, SPEAKER_LFE,
    SPEAKER_LFE2, SPEAKER_OBJECT, SPEAKER_UNKNOWN, WARP_NOT_SIGNALLED, ZERO_BITS,
};
use std::collections::VecDeque;
use vstd::prelude::*;
use vstd::string::StringExecFns;

verus! {

/// Updates waiting for their block. Payloads arrive every ~38 access units and state at most
/// eight updates each, none due more than a few thousand samples ahead; anything beyond this is
/// a malformed stream and is dropped rather than buffered without bound.
pub const MAX_PENDING: usize = 64;

/// Updates a block can carry.
pub const MAX_UPDATES_PER_BLOCK: usize = 16;

/// The gain code that stands for silence.
pub const GAIN_MINUS_INFINITY: i8 = -128;

/// One object's state at one update of a payload. Numbers that the payload states in double
/// precision are given as single-precision values; the position is clamped to the room.
#[derive(Clone, Copy, Debug)]
pub struct ObjectInfo {
    pub not_active: bool,
    pub gain_code: i8,
    pub gain: Single,
    pub gain_db: Single,
    pub priority: Single,
    pub position: [Single; 3],
    pub zone: u8,
    pub elevation: bool,
    pub snap: bool,
    pub size: [Single; 3],
    pub use_screen_ref: bool,
    pub screen_factor: Single,
    pub depth_factor: Single,
    pub distance_specified: bool,
    pub distance: Option<Single>,
}

/// When an update starts, in units of 32 frames, and how long it ramps.
#[derive(Clone, Copy, Debug)]
pub struct UpdateTime {
    pub block_offset_factor: u8,
    pub ramp_duration: u16,
}

/// The object data of a payload: per object, its state at each update.
#[derive(Debug)]
pub struct ObjectData {
    pub sample_offset: u32,
    pub update_count: usize,
    pub updates: Vec<UpdateTime>,
    pub objects: Vec<Vec<ObjectInfo>>,
}

/// The trims of a payload.
#[derive(Debug)]
pub struct TrimInfo {
    pub warp_mode: u8,
    pub global_trim_mode: u8,
    pub disabled_per_object: bool,
    pub disabled: Vec<bool>,
}

/// An object's divergence at one update.
#[derive(Clone, Copy, Debug)]
pub struct Divergence {
    pub present: bool,
    pub amount: Single,
}

/// Extended object data: divergence, and positions of extended precision, clamped to the room.
#[derive(Debug)]
pub struct ExtendedInfo {
    pub has_divergence: bool,
    pub divergence: Vec<Vec<Divergence>>,
    pub positions: Vec<Vec<[Single; 3]>>,
}

/// An object's headphone rendering at one update.
#[derive(Clone, Copy, Debug)]
pub struct HeadphoneInfo {
    pub render_mode: u8,
    pub head_track_disable: bool,
}

/// What a parsed object audio metadata payload states, as plain values.
#[derive(Debug)]
pub struct ObjectPayload {
    pub object_count: usize,
    /// Per bed, which labels it has.
    pub bed_assignment: Vec<[bool; 17]>,
    /// The nominal room position of every bed label.
    pub bed_positions: [[Single; 3]; 17],
    pub bed_objects: usize,
    pub isf_objects: usize,
    pub object_data: Option<ObjectData>,
    pub trim: Option<TrimInfo>,
    pub extended: Option<ExtendedInfo>,
    pub headphone: Option<Vec<Vec<HeadphoneInfo>>>,
    pub dialog: Option<Vec<Vec<u8>>>,
}

/// Why a payload was refused.
#[derive(Clone, Copy, PartialEq, Eq, Structural, Debug)]
pub enum IngestError {
    ElementCount { count: usize, channels: usize },
    BedAssignment { labels: usize, beds: usize, isf: usize, count: usize },
    ObjectData,
    TooManyPending,
}

impl IngestError {
    /// The message that reports the error.
    pub open spec fn text(self) -> Seq<char> {
        match self {
            IngestError::ElementCount { count, channels } => "OAMD describes "@ + decimal(
                count as nat,
            ) + " elements but the presentation decodes "@ + decimal(channels as nat)
                + " channels"@,
            IngestError::BedAssignment { labels, beds, isf, count } =>
            "OAMD bed assignment inconsistent: "@ + decimal(labels as nat) + " labels, "@ + decimal(
                beds as nat,
            ) + " bed objects, "@ + decimal(isf as nat) + " ISF, "@ + decimal(count as nat)
                + " elements"@,
            IngestError::ObjectData => "OAMD object data does not match its update count"@,
            IngestError::TooManyPending => "too many pending OAMD updates"@,
        }
    }

    /// Writes the message that reports the error.
    pub fn message(&self) -> (r: String)
        ensures
            r@ == self.text(),
    {
        match self {
            IngestError::ElementCount { count, channels } => String::from_str(
                "OAMD describes ",
            ).concat(number(*count).as_str()).concat(
                " elements but the presentation decodes ",
            ).concat(number(*channels).as_str()).concat(" channels"),
            IngestError::BedAssignment { labels, beds, isf, count } => String::from_str(
                "OAMD bed assignment inconsistent: ",
            ).concat(number(*labels).as_str()).concat(" labels, ").concat(
                number(*beds).as_str(),
            ).concat(" bed objects, ").concat(number(*isf).as_str()).concat(" ISF, ").concat(
                number(*count).as_str(),
            ).concat(" elements"),
            IngestError::ObjectData => String::from_str(
                "OAMD object data does not match its update count",
            ),
            IngestError::TooManyPending => String::from_str("too many pending OAMD updates"),
        }
    }
}

/// Channel roles as the OAMD states them: element kinds, speakers and counts.
#[derive(Clone, Copy, PartialEq, Eq, Debug)]
pub struct Layout {
    pub element_count: usize,
    pub bed_count: usize,
    pub isf_count: usize,
    pub dynamic_count: usize,
    pub speakers: [u8; 16],
}

/// `Layout`, with the speakers as a sequence.
pub struct LayoutView {
    pub element_count: int,
    pub bed_count: int,
    pub isf_count: int,
    pub dynamic_count: int,
    pub speakers: Seq<u8>,
}

impl LayoutView {
    /// Whether the counts add up to no more channels than there can be.
    pub open spec fn adds_up(self) -> bool {
        &&& 0 <= self.bed_count
        &&& 0 <= self.isf_count
        &&& 0 <= self.dynamic_count
        &&& self.bed_count + self.isf_count + self.dynamic_count == self.element_count
        &&& self.element_count <= MAX_CHANNELS
        &&& self.speakers.len() == MAX_CHANNELS
    }
}

impl View for Layout {
    type V = LayoutView;

    open spec fn view(&self) -> LayoutView {
        LayoutView {
            element_count: self.element_count as int,
            bed_count: self.bed_count as int,
            isf_count: self.isf_count as int,
            dynamic_count: self.dynamic_count as int,
            speakers: self.speakers@,
        }
    }
}

/// Compares two speaker assignments.
pub fn same_speakers(a: &[u8; 16], b: &[u8; 16]) -> (r: bool)
    ensures
        r == (a@ == b@),
{
    let mut i: usize = 0;
    while i < MAX_CHANNELS
        invariant
            i <= MAX_CHANNELS,
            forall|k: int| 0 <= k < i ==> a[k] == b[k],
        decreases MAX_CHANNELS - i,
    {
        if a[i] != b[i] {
            proof {
                assert(a@[i as int] != b@[i as int]);
            }
            return false;
        }
        i = i + 1;
    }
    proof {
        assert(a@ =~= b@);
    }
    true
}

impl Layout {
    /// Whether two layouts are the same.
    pub fn same(&self, other: &Layout) -> (r: bool)
        ensures
            r == (self@ == other@),
    {
        self.element_count == other.element_count && self.bed_count == other.bed_count
            && self.isf_count == other.isf_count && self.dynamic_count == other.dynamic_count
            && same_speakers(&self.speakers, &other.speakers)
    }
}

/// The entry for object `i` at update `j`, if there is one.
pub open spec fn entry<T>(table: Seq<Vec<T>>, i: int, j: int) -> Option<T> {
    if i < table.len() && j < table[i].len() {
        Some(table[i][j])
    } else {
        None
    }
}

/// The entry for object `i` at update `j`, or at its last one if it states fewer.
pub open spec fn entry_or_last<T>(table: Seq<Vec<T>>, i: int, j: int) -> Option<T> {
    if i < table.len() && table[i].len() > 0 {
        Some(table[i][if j < table[i].len() { j } else { table[i].len() - 1 }])
    } else {
        None
    }
}

fn find<T: Copy>(table: &Vec<Vec<T>>, i: usize, j: usize) -> (r: Option<T>)
    ensures
        r == entry(table@, i as int, j as int),
{
    if i < table.len() && j < table[i].len() {
        Some(table[i][j])
    } else {
        None
    }
}

fn find_or_last<T: Copy>(table: &Vec<Vec<T>>, i: usize, j: usize) -> (r: Option<T>)
    ensures
        r == entry_or_last(table@, i as int, j as int),
{
    if i < table.len() && table[i].len() > 0 {
        let n: usize = table[i].len();
        let k: usize = if j < n { j } else { n - 1 };
        Some(table[i][k])
    } else {
        None
    }
}

/// `bit` where `set`, else nothing.
pub open spec fn flag_if(set: bool, bit: u32) -> u32 {
    if set {
        bit
    } else {
        0
    }
}

/// `bit` where `set`, else nothing.
pub fn flag(set: bool, bit: u32) -> (r: u32)
    ensures
        r == flag_if(set, bit),
{
    if set {
        bit
    } else {
        0
    }
}

/// The labels of one bed: the places of the first `n` bits that are set, in order.
pub open spec fn set_labels(bed: Seq<bool>, n: int) -> Seq<usize>
    decreases n,
{
    if n <= 0 {
        Seq::empty()
    } else if bed[n - 1] {
        set_labels(bed, n - 1).push((n - 1) as usize)
    } else {
        set_labels(bed, n - 1)
    }
}

/// The labels of all beds, in order.
pub open spec fn labels_of(beds: Seq<[bool; 17]>) -> Seq<usize>
    decreases beds.len(),
{
    if beds.len() == 0 {
        Seq::empty()
    } else {
        labels_of(beds.drop_last()) + set_labels(beds.last()@, BED_LABELS as int)
    }
}

/// The labels of one bed.
///
/// Calls `BedAssignment::to_index_vec` of `truehd::structs::oamd`, which lists the indices of
/// the bits that are set, lowest first.
#[verifier::external_body]
pub(crate) fn bed_indices(bed: [bool; 17]) -> (r: Vec<usize>)
    ensures
        r@ == set_labels(bed@, BED_LABELS as int),
{
    truehd::structs::oamd::BedAssignment(bed).to_index_vec()
}

/// The labels of all beds.
fn bed_labels(beds: &Vec<[bool; 17]>) -> (r: Vec<usize>)
    ensures
        r@ == labels_of(beds@),
{
    let mut labels: Vec<usize> = Vec::new();
    let mut i: usize = 0;
    while i < beds.len()
        invariant
            i <= beds.len(),
            labels@ == labels_of(beds@.take(i as int)),
        decreases beds.len() - i,
    {
        let mut more: Vec<usize> = bed_indices(beds[i]);
        proof {
            assert(beds@.take(i + 1).drop_last() =~= beds@.take(i as int));
        }
        labels.append(&mut more);
        i = i + 1;
    }
    proof {
        assert(beds@.take(i as int) =~= beds@);
    }
    labels
}

impl ObjectPayload {
    /// The nominal position of the bed label with index `label`, taken modulo 256.
    pub open spec fn bed_position(self, label: int) -> [Single; 3] {
        if label % 256 < BED_LABELS {
            self.bed_positions[label % 256]
        } else {
            Element::blank().position
        }
    }

    /// The position of extended precision of object `i` at update `blk`.
    pub open spec fn refined(self, i: int, blk: int) -> Option<[Single; 3]> {
        match self.extended {
            Some(x) => entry(x.positions@, i, blk),
            None => None,
        }
    }

    /// The divergence of object `i` at update `blk`.
    pub open spec fn diverges(self, i: int, blk: int) -> Option<Single> {
        match self.extended {
            Some(x) => if x.has_divergence {
                match entry(x.divergence@, i, blk) {
                    Some(d) => if d.present {
                        Some(d.amount)
                    } else {
                        None
                    },
                    None => None,
                }
            } else {
                None
            },
            None => None,
        }
    }

    /// Whether trims leave object `i` alone.
    pub open spec fn trim_bypass(self, i: int) -> bool {
        match self.trim {
            Some(t) => if t.disabled_per_object {
                i < t.disabled.len() && t.disabled[i]
            } else {
                t.global_trim_mode == 1
            },
            None => false,
        }
    }

    /// The headphone rendering of object `i` at update `blk`.
    pub open spec fn headphones(self, i: int, blk: int) -> Option<HeadphoneInfo> {
        match self.headphone {
            Some(h) => entry_or_last(h@, i, blk),
            None => None,
        }
    }

    /// The dialog indication of object `i` at update `blk`.
    pub open spec fn dialog_of(self, i: int, blk: int) -> Option<u8> {
        match self.dialog {
            Some(d) => entry_or_last(d@, i, blk),
            None => None,
        }
    }

    /// Channel `i` at update `blk`: a bed channel at its speaker's position, an ISF channel, or a
    /// dynamic object with all its rendering data.
    pub open spec fn element(self, labels: Seq<usize>, i: int, blk: int) -> Element {
        let zero = Single { bits: ZERO_BITS };
        let od = self.object_data->0.objects[i][blk];
        let bed = i < self.bed_objects;
        let dynamic = i >= self.bed_objects + self.isf_objects;
        let speaker = if bed {
            bed_speaker(labels[i] as int)
        } else {
            SPEAKER_OBJECT
        };
        let silent = od.gain_code == GAIN_MINUS_INFINITY;
        let headphones = self.headphones(i, blk);
        let diverges = self.diverges(i, blk);
        Element {
            kind: if !bed {
                if dynamic {
                    ELEMENT_OBJECT
                } else {
                    ELEMENT_ISF
                }
            } else if speaker == SPEAKER_LFE || speaker == SPEAKER_LFE2 {
                ELEMENT_LFE
            } else {
                ELEMENT_BED
            },
            speaker,
            zone: if dynamic {
                od.zone
            } else {
                0
            },
            headphone_mode: match headphones {
                Some(h) => h.render_mode,
                None => 255,
            },
            flags: flag_if(!od.not_active, EL_ACTIVE) | flag_if(
                dynamic && od.elevation,
                EL_ELEVATION,
            ) | flag_if(dynamic && od.snap, EL_SNAP) | flag_if(
                dynamic && od.use_screen_ref,
                EL_SCREEN_REF,
            ) | flag_if(dynamic && od.distance_specified, EL_DISTANCE) | flag_if(
                dynamic && diverges is Some,
                EL_DIVERGENCE,
            ) | flag_if(self.trim_bypass(i), EL_TRIM_BYPASS) | flag_if(
                headphones is Some && headphones->0.head_track_disable,
                EL_HEAD_TRACK_DISABLE,
            ),
            position: if bed {
                self.bed_position(labels[i] as int)
            } else if dynamic {
                match self.refined(i, blk) {
                    Some(p) => p,
                    None => od.position,
                }
            } else {
                Element::blank().position
            },
            gain: if silent {
                zero
            } else {
                od.gain
            },
            gain_db: if silent {
                Single { bits: NEG_INFINITY_BITS }
            } else {
                od.gain_db
            },
            size: if dynamic {
                od.size
            } else {
                Element::blank().size
            },
            divergence: if dynamic && diverges is Some {
                diverges->0
            } else {
                zero
            },
            priority: od.priority,
            distance: if dynamic && od.distance_specified && od.distance is Some {
                od.distance->0
            } else {
                zero
            },
            screen_factor: if dynamic && od.use_screen_ref {
                od.screen_factor
            } else {
                zero
            },
            depth_factor: if dynamic {
                od.depth_factor
            } else {
                zero
            },
            dialog: match self.dialog_of(i, blk) {
                Some(d) => d,
                None => 255,
            },
        }
    }

    fn bed_position_of(&self, label: usize) -> (r: [Single; 3])
        ensures
            r == self.bed_position(label as int),
    {
        match bed_label((label % 256) as u8) {
            Some(n) => self.bed_positions[n as usize],
            None => Element::empty().position,
        }
    }

    fn divergence_of(&self, i: usize, blk: usize) -> (r: Option<Single>)
        ensures
            r == self.diverges(i as int, blk as int),
    {
        match &self.extended {
            Some(x) => if x.has_divergence {
                match find(&x.divergence, i, blk) {
                    Some(d) => if d.present {
                        Some(d.amount)
                    } else {
                        None
                    },
                    None => None,
                }
            } else {
                None
            },
            None => None,
        }
    }

    fn bypasses_trim(&self, i: usize) -> (r: bool)
        ensures
            r == self.trim_bypass(i as int),
    {
        match &self.trim {
            Some(t) => if t.disabled_per_object {
                i < t.disabled.len() && t.disabled[i]
            } else {
                t.global_trim_mode == 1
            },
            None => false,
        }
    }

    /// Builds channel `i` at update `blk`.
    fn element_at(&self, labels: &Vec<usize>, i: usize, blk: usize) -> (e: Element)
        requires
            self.object_data is Some,
            i < self.object_data->0.objects.len(),
            blk < self.object_data->0.objects[i as int].len(),
            i < self.bed_objects ==> i < labels.len(),
            self.bed_objects + self.isf_objects <= MAX_CHANNELS,
        ensures
            e == self.element(labels@, i as int, blk as int),
    {
        let mut e = Element::empty();
        let data = match &self.object_data {
            Some(data) => data,
            None => return e,
        };
        let od: ObjectInfo = data.objects[i][blk];
        let bed: bool = i < self.bed_objects;
        let dynamic: bool = i >= self.bed_objects + self.isf_objects;
        if bed {
            e.speaker = speaker_of_oamd_bed(labels[i]);
            e.kind = if e.speaker == SPEAKER_LFE || e.speaker == SPEAKER_LFE2 {
                ELEMENT_LFE
            } else {
                ELEMENT_BED
            };
            e.position = self.bed_position_of(labels[i]);
        } else if dynamic {
            e.kind = ELEMENT_OBJECT;
        } else {
            e.kind = ELEMENT_ISF;
        }
        if od.gain_code != GAIN_MINUS_INFINITY {
            e.gain = od.gain;
            e.gain_db = od.gain_db;
        }
        e.priority = od.priority;
        let divergence: Option<Single> = self.divergence_of(i, blk);
        if dynamic {
            let refined: Option<[Single; 3]> = match &self.extended {
                Some(x) => find(&x.positions, i, blk),
                None => None,
            };
            e.position = match refined {
                Some(p) => p,
                None => od.position,
            };
            e.zone = od.zone;
            e.size = od.size;
            if od.use_screen_ref {
                e.screen_factor = od.screen_factor;
            }
            e.depth_factor = od.depth_factor;
            if od.distance_specified {
                if let Some(d) = od.distance {
                    e.distance = d;
                }
            }
            if let Some(d) = divergence {
                e.divergence = d;
            }
        }
        let headphones: Option<HeadphoneInfo> = match &self.headphone {
            Some(h) => find_or_last(h, i, blk),
            None => None,
        };
        let mut head_track_disable: bool = false;
        if let Some(h) = headphones {
            e.headphone_mode = h.render_mode;
            head_track_disable = h.head_track_disable;
        }
        let dialog: Option<u8> = match &self.dialog {
            Some(d) => find_or_last(d, i, blk),
            None => None,
        };
        if let Some(d) = dialog {
            e.dialog = d;
        }
        e.flags = flag(!od.not_active, EL_ACTIVE) | flag(dynamic && od.elevation, EL_ELEVATION)
            | flag(dynamic && od.snap, EL_SNAP) | flag(dynamic && od.use_screen_ref, EL_SCREEN_REF)
            | flag(dynamic && od.distance_specified, EL_DISTANCE) | flag(
            dynamic && divergence.is_some(),
            EL_DIVERGENCE,
        ) | flag(self.bypasses_trim(i), EL_TRIM_BYPASS) | flag(
            head_track_disable,
            EL_HEAD_TRACK_DISABLE,
        );
        e
    }
}

/// An update that waits for its block.
struct Pending {
    due: u64,
    ramp: u32,
    layout: Layout,
    elements: Elements,
}

/// `Pending` as a mathematical value.
pub struct PendingView {
    /// The stream frame at which it starts.
    pub due: int,
    pub ramp: u32,
    pub layout: LayoutView,
    pub elements: Seq<Element>,
}

impl View for Pending {
    type V = PendingView;

    closed spec fn view(&self) -> PendingView {
        PendingView {
            due: self.due as int,
            ramp: self.ramp,
            layout: self.layout@,
            elements: self.elements@,
        }
    }
}

spec fn views(s: Seq<Pending>) -> Seq<PendingView> {
    Seq::new(s.len(), |i: int| s[i]@)
}

/// Metadata updates that wait for their block, and the elements as the updates delivered so far
/// leave them.
pub struct ObjectState {
    have_state: bool,
    layout: Option<Layout>,
    warp_mode: i32,
    current: Elements,
    pending: VecDeque<Pending>,
}

/// `ObjectState` as a mathematical value.
pub struct ObjectView {
    pub have_state: bool,
    pub layout: Option<LayoutView>,
    pub warp_mode: i32,
    pub current: Seq<Element>,
    pub pending: Seq<PendingView>,
}

impl View for ObjectState {
    type V = ObjectView;

    closed spec fn view(&self) -> ObjectView {
        ObjectView {
            have_state: self.have_state,
            layout: match self.layout {
                Some(l) => Some(l@),
                None => None,
            },
            warp_mode: self.warp_mode,
            current: self.current@,
            pending: views(self.pending@),
        }
    }
}

/// An update handed out with a block.
pub struct UpdateView {
    pub frame_offset: int,
    pub ramp_frames: u32,
    pub elements: Seq<Element>,
}

impl View for MetadataUpdate {
    type V = UpdateView;

    open spec fn view(&self) -> UpdateView {
        UpdateView {
            frame_offset: self.frame_offset as int,
            ramp_frames: self.ramp_frames,
            elements: self.elements@,
        }
    }
}

/// `Metadata` as a mathematical value.
pub struct MetadataView {
    pub element_count: int,
    pub bed_count: int,
    pub isf_count: int,
    pub dynamic_count: int,
    pub warp_mode: i32,
    pub updates: Seq<UpdateView>,
    pub elements: Seq<Element>,
}

impl View for Metadata {
    type V = MetadataView;

    open spec fn view(&self) -> MetadataView {
        MetadataView {
            element_count: self.element_count as int,
            bed_count: self.bed_count as int,
            isf_count: self.isf_count as int,
            dynamic_count: self.dynamic_count as int,
            warp_mode: self.warp_mode,
            updates: Seq::new(self.updates@.len(), |i: int| self.updates@[i]@),
            elements: self.elements@,
        }
    }
}

/// Whether updates wait in the order in which they start.
pub open spec fn in_order(pending: Seq<PendingView>) -> bool {
    forall|i: int, j: int|
        0 <= i <= j < pending.len() ==> (#[trigger] pending[i]).due <= (#[trigger] pending[j]).due
}

/// The place, from `k` on, of the first update that starts after `due`.
pub open spec fn slot(pending: Seq<PendingView>, due: int, k: int) -> int
    decreases pending.len() - k,
{
    if k >= pending.len() || pending[k].due > due {
        k
    } else {
        slot(pending, due, k + 1)
    }
}

/// `p` put behind every update that starts no later.
pub open spec fn inserted(pending: Seq<PendingView>, p: PendingView) -> Seq<PendingView> {
    pending.insert(slot(pending, p.due, 0), p)
}

/// Updates scheduled one by one until none is left or the queue is full, and whether all were.
pub open spec fn scheduled(pending: Seq<PendingView>, updates: Seq<PendingView>) -> (
    Seq<PendingView>,
    bool,
)
    decreases updates.len(),
{
    if updates.len() == 0 {
        (pending, true)
    } else if pending.len() >= MAX_PENDING {
        (pending, false)
    } else {
        scheduled(inserted(pending, updates[0]), updates.skip(1))
    }
}

impl ObjectPayload {
    /// The channel roles it states, given its bed labels.
    pub open spec fn layout(self, labels: Seq<usize>) -> LayoutView {
        LayoutView {
            element_count: self.object_count as int,
            bed_count: self.bed_objects as int,
            isf_count: self.isf_objects as int,
            dynamic_count: self.object_count - self.bed_objects - self.isf_objects,
            speakers: Seq::new(
                MAX_CHANNELS as nat,
                |i: int|
                    if i >= self.object_count {
                        SPEAKER_UNKNOWN
                    } else if i < self.bed_objects {
                        bed_speaker(labels[i] as int)
                    } else {
                        SPEAKER_OBJECT
                    },
            ),
        }
    }

    /// Its update `blk`: due at its sample offset plus 32 frames for each unit of its block
    /// offset factor, counted from `base`.
    pub open spec fn update(self, labels: Seq<usize>, base: int, blk: int) -> PendingView {
        let data = self.object_data->0;
        PendingView {
            due: base + data.sample_offset + 32 * data.updates[blk].block_offset_factor,
            ramp: data.updates[blk].ramp_duration as u32,
            layout: self.layout(labels),
            elements: Seq::new(
                MAX_CHANNELS as nat,
                |i: int|
                    if i < self.object_count {
                        self.element(labels, i, blk)
                    } else {
                        Element::blank()
                    },
            ),
        }
    }

    /// All its updates, counted from `base`.
    pub open spec fn all_updates(self, base: int) -> Seq<PendingView> {
        Seq::new(
            self.object_data->0.updates@.len(),
            |blk: int| self.update(labels_of(self.bed_assignment@), base, blk),
        )
    }

    /// What is wrong with it for a presentation of `channels` channels, if anything: it describes
    /// another number of channels, its beds do not add up, or its object data are not one entry
    /// for each channel and update.
    pub open spec fn refusal(self, channels: int) -> Option<IngestError> {
        let labels = labels_of(self.bed_assignment@).len();
        let data = self.object_data->0;
        if self.object_count != channels || self.object_count > MAX_CHANNELS {
            Some(
                IngestError::ElementCount {
                    count: self.object_count,
                    channels: channels as usize,
                },
            )
        } else if labels != self.bed_objects || self.bed_objects + self.isf_objects
            > self.object_count {
            Some(
                IngestError::BedAssignment {
                    labels: labels as usize,
                    beds: self.bed_objects,
                    isf: self.isf_objects,
                    count: self.object_count,
                },
            )
        } else if data.updates@.len() != data.update_count || data.objects@.len()
            != self.object_count || exists|i: int|
            0 <= i < data.objects@.len() && (#[trigger] data.objects@[i])@.len()
                != data.update_count {
            Some(IngestError::ObjectData)
        } else {
            None
        }
    }
}

/// Where handing out an update leads from `v`, and what is handed out. An element is marked
/// CHANGED if it differs from the one before it, if the layout does, or if none came before.
pub open spec fn delivered_one(v: ObjectView, p: PendingView, start: int) -> (
    ObjectView,
    UpdateView,
) {
    let anew = !v.have_state || v.layout != Some(p.layout);
    let elements = Seq::new(
        MAX_CHANNELS as nat,
        |i: int|
            if i < p.layout.element_count {
                p.elements[i].marked(anew || !p.elements[i].equal_values(v.current[i]))
            } else {
                p.elements[i]
            },
    );
    (
        ObjectView {
            have_state: true,
            layout: Some(p.layout),
            current: elements.map_values(|e: Element| e.marked(false)),
            ..v
        },
        UpdateView {
            frame_offset: if p.due > start {
                p.due - start
            } else {
                0
            },
            ramp_frames: p.ramp,
            elements,
        },
    )
}

/// Where handing out every update due before `end` leads, and what is handed out with the block
/// that starts at `start`, `had` updates having been handed out with it already. Updates beyond
/// those a block can carry only leave their elements behind.
pub open spec fn delivered(v: ObjectView, start: int, end: int, had: int) -> (
    ObjectView,
    Seq<UpdateView>,
)
    decreases v.pending.len(),
{
    if v.pending.len() == 0 || v.pending[0].due >= end {
        (v, Seq::empty())
    } else {
        let p = v.pending[0];
        let rest = ObjectView { pending: v.pending.skip(1), ..v };
        if had >= MAX_UPDATES_PER_BLOCK {
            delivered(ObjectView { current: p.elements, ..rest }, start, end, had)
        } else {
            let (w, update) = delivered_one(rest, p, start);
            let (x, more) = delivered(w, start, end, had + 1);
            (x, seq![update] + more)
        }
    }
}

impl ObjectView {
    /// The metadata of the block of `frames` frames from stream frame `start` on: none before
    /// the first update since reset.
    #[verifier::opaque]
    pub open spec fn begin_block(self, start: int, frames: int) -> (
        ObjectView,
        Option<MetadataView>,
    ) {
        let (v, updates) = delivered(self, start, start + frames, 0);
        (
            v,
            match v.layout_in_force() {
                None => None,
                Some(layout) => Some(
                    MetadataView {
                        element_count: layout.element_count,
                        bed_count: layout.bed_count,
                        isf_count: layout.isf_count,
                        dynamic_count: layout.dynamic_count,
                        warp_mode: v.warp_mode,
                        updates,
                        elements: v.current,
                    },
                ),
            },
        )
    }

    /// Nothing received.
    pub open spec fn fresh() -> ObjectView {
        ObjectView {
            have_state: false,
            layout: None,
            warp_mode: WARP_NOT_SIGNALLED,
            current: Seq::new(MAX_CHANNELS as nat, |i: int| Element::blank()),
            pending: Seq::empty(),
        }
    }

    /// Everything forgotten but the elements, which stay until the next update replaces them.
    pub open spec fn cleared(self) -> ObjectView {
        ObjectView { current: self.current, ..ObjectView::fresh() }
    }

    /// What every operation keeps.
    pub open spec fn valid(self) -> bool {
        &&& self.current.len() == MAX_CHANNELS
        &&& self.pending.len() <= MAX_PENDING
        &&& in_order(self.pending)
        &&& forall|i: int|
            0 <= i < self.pending.len() ==> (#[trigger] self.pending[i]).elements.len()
                == MAX_CHANNELS && self.pending[i].layout.adds_up()
        &&& self.have_state ==> self.layout is Some
        &&& self.layout matches Some(l) ==> l.adds_up()
    }

    /// The channel roles in force, if any update was delivered.
    pub open spec fn layout_in_force(self) -> Option<LayoutView> {
        if self.have_state {
            self.layout
        } else {
            None
        }
    }

    /// A payload taken in: its trims apply at once, its updates are scheduled from stream frame
    /// `base` on. A payload without object data only restates trims or the like.
    #[verifier::opaque]
    pub open spec fn ingest(self, payload: ObjectPayload, base: int, channels: int) -> (
        ObjectView,
        Result<(), IngestError>,
    ) {
        let v = ObjectView {
            warp_mode: match payload.trim {
                Some(t) => t.warp_mode as i32,
                None => self.warp_mode,
            },
            ..self
        };
        if payload.object_data is None {
            (v, Ok(()))
        } else {
            match payload.refusal(channels) {
                Some(e) => (v, Err(e)),
                None => {
                    let (pending, all) = scheduled(v.pending, payload.all_updates(base));
                    (
                        ObjectView { pending, ..v },
                        if all {
                            Ok(())
                        } else {
                            Err(IngestError::TooManyPending)
                        },
                    )
                },
            }
        }
    }
}

pub proof fn lemma_slot(pending: Seq<PendingView>, due: int, k: int)
    requires
        0 <= k <= pending.len(),
        forall|i: int| 0 <= i < k ==> (#[trigger] pending[i]).due <= due,
    ensures
        k <= slot(pending, due, k) <= pending.len(),
        forall|i: int| 0 <= i < slot(pending, due, k) ==> (#[trigger] pending[i]).due <= due,
        slot(pending, due, k) < pending.len() ==> pending[slot(pending, due, k)].due > due,
    decreases pending.len() - k,
{
    if k < pending.len() && pending[k].due <= due {
        lemma_slot(pending, due, k + 1);
    }
}

pub proof fn lemma_inserted(pending: Seq<PendingView>, p: PendingView)
    requires
        in_order(pending),
    ensures
        in_order(inserted(pending, p)),
        0 <= slot(pending, p.due, 0) <= pending.len(),
        inserted(pending, p).len() == pending.len() + 1,
        forall|i: int|
            0 <= i < inserted(pending, p).len() ==> #[trigger] inserted(pending, p)[i] == p
                || pending.contains(inserted(pending, p)[i]),
{
    lemma_slot(pending, p.due, 0);
    let at = slot(pending, p.due, 0);
    let out = inserted(pending, p);
    assert forall|i: int| 0 <= i < out.len() implies #[trigger] out[i] == p || pending.contains(
        out[i],
    ) by {
        if i < at {
            assert(out[i] == pending[i]);
        } else if i > at {
            assert(out[i] == pending[i - 1]);
        }
    }
    assert forall|i: int, j: int| 0 <= i <= j < out.len() implies (#[trigger] out[i]).due <= (
    #[trigger] out[j]).due by {
        let a = if i < at {
            i
        } else {
            i - 1
        };
        let b = if j < at {
            j
        } else {
            j - 1
        };
        if i != at {
            assert(out[i] == pending[a]);
        }
        if j != at {
            assert(out[j] == pending[b]);
        }
        if i == at && j > at {
            assert(pending[at].due <= pending[b].due);
        }
        if i != at && j != at {
            assert(pending[a].due <= pending[b].due);
        }
    }
}

/// Whether a table has `rows` rows of `columns` entries each.
fn is_table(table: &Vec<Vec<ObjectInfo>>, rows: usize, columns: usize) -> (r: bool)
    ensures
        r == (table@.len() == rows && forall|i: int|
            0 <= i < table@.len() ==> (#[trigger] table@[i])@.len() == columns),
{
    if table.len() != rows {
        return false;
    }
    let mut i: usize = 0;
    while i < rows
        invariant
            i <= rows,
            rows == table.len(),
            forall|j: int| 0 <= j < i ==> (#[trigger] table@[j])@.len() == columns,
        decreases rows - i,
    {
        if table[i].len() != columns {
            proof {
                assert(table@[i as int]@.len() != columns);
            }
            return false;
        }
        i = i + 1;
    }
    true
}

impl ObjectPayload {
    /// Builds all channels at update `blk`.
    fn elements_at(&self, labels: &Vec<usize>, blk: usize) -> (r: Elements)
        requires
            self.object_data is Some,
            self.refusal(self.object_count as int) is None,
            labels@ == labels_of(self.bed_assignment@),
            blk < self.object_data->0.updates.len(),
        ensures
            forall|base: int| r@ == (#[trigger] self.update(labels@, base, blk as int)).elements,
    {
        let count: usize = self.object_count;
        let mut elements: Elements = all_alike(Element::empty());
        let ghost data = self.object_data->0;
        let mut i: usize = 0;
        while i < count
            invariant
                i <= count <= MAX_CHANNELS,
                count == self.object_count,
                self.object_data == Some(data),
                self.refusal(self.object_count as int) is None,
                labels@ == labels_of(self.bed_assignment@),
                blk < data.updates.len(),
                forall|j: int|
                    0 <= j < i ==> elements[j] == self.element(labels@, j, blk as int),
                forall|j: int| i <= j < MAX_CHANNELS ==> elements[j] == Element::blank(),
            decreases count - i,
        {
            proof {
                assert(data.objects@[i as int]@.len() == data.update_count);
            }
            elements[i] = self.element_at(labels, i, blk);
            i = i + 1;
        }
        proof {
            assert forall|base: int| elements@ == (#[trigger] self.update(
                labels@,
                base,
                blk as int,
            )).elements by {
                assert(elements@ =~= self.update(labels@, base, blk as int).elements);
            }
        }
        elements
    }
}

fn all_alike(e: Element) -> (r: Elements)
    ensures
        r@ == Seq::new(MAX_CHANNELS as nat, |i: int| e),
{
    let r: Elements = [e, e, e, e, e, e, e, e, e, e, e, e, e, e, e, e];
    proof {
        assert(r@ =~= Seq::new(MAX_CHANNELS as nat, |i: int| e));
    }
    r
}

/// A block carries no more updates than it can.
pub proof fn lemma_delivered_len(v: ObjectView, start: int, end: int, had: int)
    requires
        0 <= had <= MAX_UPDATES_PER_BLOCK,
    ensures
        delivered(v, start, end, had).1.len() <= MAX_UPDATES_PER_BLOCK - had,
    decreases v.pending.len(),
{
    if v.pending.len() > 0 && v.pending[0].due < end {
        let p = v.pending[0];
        let rest = ObjectView { pending: v.pending.skip(1), ..v };
        if had >= MAX_UPDATES_PER_BLOCK {
            lemma_delivered_len(ObjectView { current: p.elements, ..rest }, start, end, had);
        } else {
            lemma_delivered_len(delivered_one(rest, p, start).0, start, end, had + 1);
        }
    }
}

impl Default for ObjectState {
    fn default() -> (r: ObjectState)
        ensures
            r.inv(),
            r@ == ObjectView::fresh(),
    {
        let current: Elements = all_alike(Element::empty());
        let r = ObjectState {
            have_state: false,
            layout: None,
            warp_mode: WARP_NOT_SIGNALLED,
            current,
            pending: VecDeque::new(),
        };
        proof {
            assert(r@.current =~= ObjectView::fresh().current);
            assert(r@.pending =~= Seq::<PendingView>::empty());
        }
        r
    }
}

impl ObjectState {
    /// The value is a valid one.
    pub closed spec fn inv(&self) -> bool {
        self@.valid()
    }

    /// A state's value is always a valid one.
    pub proof fn lemma_valid(&self)
        requires
            self.inv(),
        ensures
            self@.valid(),
    {
    }

    /// The element configuration of the updates delivered so far, if any since reset.
    pub fn layout(&self) -> (r: Option<Layout>)
        ensures
            match r {
                Some(l) => self@.layout_in_force() == Some(l@),
                None => self@.layout_in_force() is None,
            },
    {
        if self.have_state {
            self.layout
        } else {
            None
        }
    }

    /// Forgets all updates.
    pub fn clear(&mut self)
        requires
            old(self).inv(),
        ensures
            final(self).inv(),
            final(self)@ == old(self)@.cleared(),
    {
        self.have_state = false;
        self.layout = None;
        self.warp_mode = WARP_NOT_SIGNALLED;
        self.pending.clear();
        proof {
            assert(self@.pending =~= Seq::<PendingView>::empty());
        }
    }

    /// Puts an update behind every one that starts no later.
    fn schedule(&mut self, p: Pending)
        requires
            old(self).inv(),
            old(self)@.pending.len() < MAX_PENDING,
            p.layout@.adds_up(),
        ensures
            final(self).inv(),
            final(self)@ == (ObjectView {
                pending: inserted(old(self)@.pending, p@),
                ..old(self)@
            }),
    {
        let ghost before = self@.pending;
        proof {
            lemma_inserted(before, p@);
        }
        let mut at: usize = 0;
        while at < self.pending.len() && self.pending[at].due <= p.due
            invariant
                at <= self.pending.len(),
                before == views(self.pending@),
                slot(before, p.due as int, at as int) == slot(before, p.due as int, 0),
                *self == *old(self),
            decreases self.pending.len() - at,
        {
            at = at + 1;
        }
        let ghost v = p@;
        self.pending.insert(at, p);
        proof {
            assert(self@.pending =~= inserted(before, v));
        }
    }

    /// Schedules the updates of one payload that arrived with the access unit starting at stream
    /// frame `au_start`, carried at `evo_offset` frames into it.
    pub fn ingest(
        &mut self,
        payload: &ObjectPayload,
        au_start: u64,
        evo_offset: u64,
        channel_count: usize,
    ) -> (r: Result<(), IngestError>)
        requires
            old(self).inv(),
            payload.object_data matches Some(data) ==> au_start + evo_offset + data.sample_offset
                + 32 * 255 <= u64::MAX,
        ensures
            final(self).inv(),
            (final(self)@, r) == old(self)@.ingest(
                *payload,
                au_start + evo_offset,
                channel_count as int,
            ),
    {
        proof {
            reveal(ObjectView::ingest);
        }
        if let Some(trim) = &payload.trim {
            self.warp_mode = trim.warp_mode as i32;
        }
        let data = match &payload.object_data {
            Some(data) => data,
            None => return Ok(()),
        };
        let count: usize = payload.object_count;
        if count != channel_count || count > MAX_CHANNELS {
            return Err(IngestError::ElementCount { count, channels: channel_count });
        }
        let labels: Vec<usize> = bed_labels(&payload.bed_assignment);
        let beds: usize = payload.bed_objects;
        let isf: usize = payload.isf_objects;
        if labels.len() != beds || beds > count || isf > count - beds {
            return Err(IngestError::BedAssignment { labels: labels.len(), beds, isf, count });
        }
        let mut speakers: [u8; 16] = [SPEAKER_UNKNOWN; 16];
        let mut i: usize = 0;
        while i < count
            invariant
                i <= count <= MAX_CHANNELS,
                count == payload.object_count,
                beds == payload.bed_objects,
                beds == labels.len(),
                forall|k: int|
                    0 <= k < i ==> speakers[k] == payload.layout(labels@).speakers[k],
                forall|k: int| i <= k < MAX_CHANNELS ==> speakers[k] == SPEAKER_UNKNOWN,
            decreases count - i,
        {
            speakers[i] = if i < beds {
                speaker_of_oamd_bed(labels[i])
            } else {
                SPEAKER_OBJECT
            };
            i = i + 1;
        }
        let layout = Layout {
            element_count: count,
            bed_count: beds,
            isf_count: isf,
            dynamic_count: count - beds - isf,
            speakers,
        };
        proof {
            assert(layout@.speakers =~= payload.layout(labels@).speakers);
        }
        if data.updates.len() != data.update_count || !is_table(
            &data.objects,
            count,
            data.update_count,
        ) {
            return Err(IngestError::ObjectData);
        }
        if self.schedule_updates(payload, data, &labels, layout, au_start + evo_offset) {
            Ok(())
        } else {
            Err(IngestError::TooManyPending)
        }
    }

    /// Schedules the updates of a payload one by one until the queue is full.
    fn schedule_updates(
        &mut self,
        payload: &ObjectPayload,
        data: &ObjectData,
        labels: &Vec<usize>,
        layout: Layout,
        base: u64,
    ) -> (all: bool)
        requires
            old(self).inv(),
            payload.object_data == Some(*data),
            payload.refusal(payload.object_count as int) is None,
            labels@ == labels_of(payload.bed_assignment@),
            layout@ == payload.layout(labels@),
            base + data.sample_offset + 32 * 255 <= u64::MAX,
        ensures
            final(self).inv(),
            (final(self)@.pending, all) == scheduled(
                old(self)@.pending,
                payload.all_updates(base as int),
            ),
            final(self)@ == (ObjectView { pending: final(self)@.pending, ..old(self)@ }),
    {
        let ghost updates = payload.all_updates(base as int);
        let ghost first = self@;
        proof {
            assert(updates.skip(0) =~= updates);
        }
        let mut blk: usize = 0;
        while blk < data.updates.len()
            invariant
                blk <= data.updates.len(),
                payload.object_data == Some(*data),
                payload.refusal(payload.object_count as int) is None,
                labels@ == labels_of(payload.bed_assignment@),
                layout@ == payload.layout(labels@),
                base + data.sample_offset + 32 * 255 <= u64::MAX,
                updates == payload.all_updates(base as int),
                self.inv(),
                first == old(self)@,
                self@ == (ObjectView { pending: self@.pending, ..first }),
                scheduled(self@.pending, updates.skip(blk as int)) == scheduled(
                    first.pending,
                    updates,
                ),
            decreases data.updates.len() - blk,
        {
            let time: UpdateTime = data.updates[blk];
            let due: u64 = base + data.sample_offset as u64 + 32 * time.block_offset_factor as u64;
            let elements: Elements = payload.elements_at(labels, blk);
            proof {
                assert(updates.skip(blk as int)[0] == payload.update(
                    labels@,
                    base as int,
                    blk as int,
                ));
                assert(updates.skip(blk as int).skip(1) =~= updates.skip(blk + 1));
            }
            if self.pending.len() >= MAX_PENDING {
                return false;
            }
            self.schedule(Pending { due, ramp: time.ramp_duration as u32, layout, elements });
            blk = blk + 1;
        }
        true
    }

    /// Takes the first waiting update into the elements, and returns it with CHANGED markers.
    fn deliver(&mut self, start: u64, end: u64) -> (r: MetadataUpdate)
        requires
            old(self).inv(),
            old(self)@.pending.len() > 0,
            old(self)@.pending[0].due < end,
            end - start <= u32::MAX,
        ensures
            final(self).inv(),
            (final(self)@, r@) == delivered_one(
                (ObjectView { pending: old(self)@.pending.skip(1), ..old(self)@ }),
                old(self)@.pending[0],
                start as int,
            ),
    {
        let ghost v = self@;
        let ghost q = v.pending[0];
        let mut elements: Elements = self.pending[0].elements;
        let layout: Layout = self.pending[0].layout;
        let due: u64 = self.pending[0].due;
        let ramp: u32 = self.pending[0].ramp;
        let _ = self.pending.pop_front();
        let ghost rest = ObjectView { pending: v.pending.skip(1), ..v };
        proof {
            assert(q == PendingView {
                due: due as int,
                ramp,
                layout: layout@,
                elements: elements@,
            });
            assert(self@.pending =~= v.pending.skip(1));
            assert(self@ == rest);
        }
        let layout_changed: bool = match &self.layout {
            Some(l) => !l.same(&layout),
            None => true,
        };
        let anew: bool = !self.have_state || layout_changed;
        let mut current: Elements = elements;
        let mut i: usize = 0;
        while i < MAX_CHANNELS
            invariant
                i <= MAX_CHANNELS,
                self@ == rest,
                rest.current == self.current@,
                q.layout == layout@,
                q.elements.len() == MAX_CHANNELS,
                anew == (!rest.have_state || rest.layout != Some(q.layout)),
                forall|k: int| i <= k < MAX_CHANNELS ==> elements[k] == q.elements[k],
                forall|k: int|
                    0 <= k < i ==> elements[k] == delivered_one(
                        rest,
                        q,
                        start as int,
                    ).1.elements[k],
                forall|k: int|
                    0 <= k < i ==> current[k] == delivered_one(rest, q, start as int).0.current[k],
            decreases MAX_CHANNELS - i,
        {
            if i < layout.element_count {
                let changed: bool = anew || !elements[i].same_values(&self.current[i]);
                elements[i] = elements[i].mark(changed);
            }
            current[i] = elements[i].mark(false);
            i = i + 1;
        }
        self.have_state = true;
        self.layout = Some(layout);
        self.current = current;
        let frame_offset: u32 = if due > start {
            (due - start) as u32
        } else {
            0
        };
        proof {
            let (w, u) = delivered_one(rest, q, start as int);
            assert(elements@ =~= u.elements);
            assert(current@ =~= w.current);
        }
        MetadataUpdate { frame_offset, ramp_frames: ramp, elements }
    }

    /// Moves the updates starting within `[start, start + frames)` into this block and returns
    /// the metadata to attach, or none before the first update since reset.
    pub fn begin_block(&mut self, start: u64, frames: u32) -> (r: Option<Metadata>)
        requires
            old(self).inv(),
            start + frames <= u64::MAX,
        ensures
            final(self).inv(),
            match r {
                Some(m) => (final(self)@, Some(m@)) == old(self)@.begin_block(
                    start as int,
                    frames as int,
                ),
                None => (final(self)@, None::<MetadataView>) == old(self)@.begin_block(
                    start as int,
                    frames as int,
                ),
            },
            r matches Some(m) ==> m.updates@.len() <= MAX_UPDATES_PER_BLOCK,
    {
        proof {
            reveal(ObjectView::begin_block);
        }
        let end: u64 = start + frames as u64;
        let ghost all = delivered(self@, start as int, end as int, 0);
        let mut updates: Vec<MetadataUpdate> = Vec::new();
        let ghost mut out = Seq::<UpdateView>::empty();
        proof {
            assert(out + all.1 =~= all.1);
        }
        while self.pending.len() > 0 && self.pending[0].due < end
            invariant
                self.inv(),
                end == start + frames,
                out.len() == updates@.len(),
                forall|k: int| 0 <= k < out.len() ==> #[trigger] out[k] == updates@[k]@,
                out.len() <= MAX_UPDATES_PER_BLOCK,
                all.0 == delivered(self@, start as int, end as int, out.len() as int).0,
                all.1 == out + delivered(self@, start as int, end as int, out.len() as int).1,
            decreases self.pending.len(),
        {
            let ghost v = self@;
            proof {
                assert(v.pending[0] == self.pending@[0]@);
            }
            if updates.len() == MAX_UPDATES_PER_BLOCK {
                // Pathological: fold into the newest state without its own update entry.
                let elements: Elements = self.pending[0].elements;
                let _ = self.pending.pop_front();
                self.current = elements;
                proof {
                    assert(self@.pending =~= v.pending.skip(1));
                    assert(self@ == (ObjectView {
                        current: v.pending[0].elements,
                        pending: v.pending.skip(1),
                        ..v
                    }));
                }
            } else {
                let update = self.deliver(start, end);
                proof {
                    let more = delivered(self@, start as int, end as int, out.len() as int + 1).1;
                    assert(out + (seq![update@] + more) =~= out.push(update@) + more);
                    out = out.push(update@);
                }
                updates.push(update);
            }
        }
        proof {
            assert(out + Seq::<UpdateView>::empty() =~= out);
        }
        let layout: Layout = match self.layout() {
            Some(l) => l,
            None => return None,
        };
        let m = Metadata {
            element_count: layout.element_count as u32,
            bed_count: layout.bed_count as u32,
            isf_count: layout.isf_count as u32,
            dynamic_count: layout.dynamic_count as u32,
            warp_mode: self.warp_mode,
            updates,
            elements: self.current,
        };
        proof {
            assert(m@.updates =~= all.1);
        }
        Some(m)
    }
}

} // verus!
