//! The decoder behind a handle: framing, configuration, timing, recovery and the assembly of
//! blocks.
//!
//! The engine decides; parsing and decoding of access units happen outside. `pull` runs until
//! one of them is needed and says which; the caller performs it and hands the outcome to
//! `probed` or `decoded`, which go on to the next.

use crate::engine_laws::{law_advancing_keeps_position, lemma_steps, steps};
use crate::engine_view::{
    channels_of, fallback, first_decoded, frames_of, EngineView, RolesView, OBJECT_PRESENTATION,
};
use crate::events::{
    Action, ActionView, CodecOrders, DecodeFailure, DecodedUnit, OamdArrival, ProbeOutcome, Unit,
    UnitView,
};
use crate::framer::{AuInfo, Framer, Next};
use crate::objects::{
    flag, lemma_delivered_len, same_speakers, ObjectState, ObjectView, MAX_UPDATES_PER_BLOCK,
};
use crate::pushes::{Pushes, MAX_PENDING_INPUT};
use crate::stream::{
    describes, major_sync_signature, probe, rate_error, rate_of, resolve, roles, StreamDesc,
};
use crate::text::replace_nul;
use crate::types::{
    Block, Metadata, Stats, Status, StreamInfo, BLOCK_DISCONTINUITY, BLOCK_HAS_METADATA,
    BLOCK_INPUT_OFFSET_ESTIMATED, BLOCK_LAYOUT_CHANGED, BLOCK_METADATA_UPDATED, ERR_BUFFER_FULL,
    MAX_BLOCK_FRAMES, MAX_CHANNELS, MAX_PRESENTATIONS, OK, PRESENTATION_HIGHEST,
    PRESENTATION_HIGHEST_CHANNEL_BASED, SPEAKER_UNKNOWN,
};
use vstd::prelude::*;
use vstd::slice::slice_to_vec;
use vstd::string::StringExecFns;

verus! {

/// Presentation to require when the stream could not be probed: the selector by number, with the
/// decoder's own fallback to the highest available presentation.
pub fn fallback_resolution(selection: i32) -> (r: usize)
    ensures
        r == fallback(selection),
        r < MAX_PRESENTATIONS,
{
    if selection == PRESENTATION_HIGHEST {
        3
    } else if selection == PRESENTATION_HIGHEST_CHANNEL_BASED {
        2
    } else if selection < 0 {
        0
    } else if selection > 3 {
        3
    } else {
        selection as usize
    }
}

fn same_bytes(a: &Vec<u8>, b: &Vec<u8>) -> (r: bool)
    ensures
        r == (a@ == b@),
{
    if a.len() != b.len() {
        return false;
    }
    let mut i: usize = 0;
    while i < a.len()
        invariant
            i <= a.len(),
            a.len() == b.len(),
            forall|k: int| 0 <= k < i ==> a[k] == b[k],
        decreases a.len() - i,
    {
        if a[i] != b[i] {
            return false;
        }
        i = i + 1;
    }
    proof {
        assert(a@ =~= b@);
    }
    true
}

/// Channel roles as blocks report them; the layout serial changes exactly when these do.
#[derive(Clone, Copy)]
struct Roles {
    sample_rate: u32,
    presentation: u32,
    channels: u32,
    speakers: [u8; 16],
}

impl Roles {
    fn same(&self, other: &Roles) -> (r: bool)
        ensures
            r == (self@ == other@),
    {
        self.sample_rate == other.sample_rate && self.presentation == other.presentation
            && self.channels == other.channels && same_speakers(&self.speakers, &other.speakers)
    }
}

impl View for Roles {
    type V = RolesView;

    closed spec fn view(&self) -> RolesView {
        RolesView {
            sample_rate: self.sample_rate,
            presentation: self.presentation as int,
            channels: self.channels as int,
            speakers: self.speakers@,
        }
    }
}

/// A decoder, but for the parser and the decoder proper.
pub struct Engine {
    selection: i32,
    framer: Framer,
    pushes: Pushes,
    waiting_for_sync: bool,
    sync_signature: Vec<u8>,
    desc: Option<StreamDesc>,
    resolved: usize,
    oamd_seen: bool,
    sample_position: u64,
    pending_flags: u32,
    roles: Option<Roles>,
    layout_serial: u32,
    objects: ObjectState,
    stats: Stats,
    last_error: String,
    poisoned: bool,
    unit: Option<Unit>,
    probing: Option<Vec<u8>>,
    restart_codec: bool,
    set_required: bool,
    required: [bool; 4],
}

impl View for Engine {
    type V = EngineView;

    closed spec fn view(&self) -> EngineView {
        EngineView {
            selection: self.selection,
            framer: self.framer@,
            pushes: self.pushes@,
            waiting_for_sync: self.waiting_for_sync,
            sync_signature: self.sync_signature@,
            desc: self.desc,
            resolved: self.resolved as int,
            oamd_seen: self.oamd_seen,
            sample_position: self.sample_position as int,
            pending_flags: self.pending_flags,
            roles: match self.roles {
                Some(r) => Some(r@),
                None => None,
            },
            layout_serial: self.layout_serial,
            objects: self.objects@,
            stats: self.stats,
            last_error: self.last_error@,
            poisoned: self.poisoned,
            unit: match self.unit {
                Some(u) => Some(u@),
                None => None,
            },
            probing: match self.probing {
                Some(s) => Some(s@),
                None => None,
            },
            restart_codec: self.restart_codec,
            set_required: self.set_required,
            required: self.required@,
        }
    }
}

spec fn views(action: Option<Action>) -> Option<ActionView> {
    match action {
        Some(a) => Some(a@),
        None => None,
    }
}

impl Engine {
    /// The parts are sound, and the engine's value is a valid one.
    pub closed spec fn inv(&self) -> bool {
        &&& self.framer.inv()
        &&& self.pushes.inv()
        &&& self.objects.inv()
        &&& self@.counts()
    }

    /// An engine's value is always a valid one.
    pub proof fn lemma_valid(&self)
        requires
            self.inv(),
        ensures
            self@.valid(),
    {
        self.framer.lemma_valid();
        self.pushes.lemma_valid();
        self.objects.lemma_valid();
    }

    /// An engine that decodes the selected presentation.
    pub fn new(selection: i32) -> (r: Engine)
        ensures
            r.inv(),
            r@ == EngineView::fresh(selection),
    {
        let r = Engine {
            selection,
            framer: Framer::default(),
            pushes: Pushes::default(),
            waiting_for_sync: true,
            sync_signature: Vec::new(),
            desc: None,
            resolved: 0,
            oamd_seen: false,
            sample_position: 0,
            pending_flags: BLOCK_DISCONTINUITY,
            roles: None,
            layout_serial: 0,
            objects: ObjectState::default(),
            stats: Stats::default(),
            last_error: String::new(),
            poisoned: false,
            unit: None,
            probing: None,
            restart_codec: false,
            set_required: false,
            required: [false, false, false, false],
        };
        proof {
            assert(r@.required =~= EngineView::fresh(selection).required);
        }
        r
    }

    /// Seek: drop input and decode state. Stream description, the layout serial and the
    /// substream-count hint survive, so a seek within one stream keeps its layout identity.
    pub fn reset(&mut self)
        requires
            old(self).inv(),
        ensures
            final(self).inv(),
            final(self)@ == old(self)@.after_reset(),
    {
        self.framer.reset();
        self.restart_decoding();
        self.pushes.reset();
        self.sample_position = 0;
        self.oamd_seen = false;
        self.stats = Stats::default();
        self.last_error = String::new();
        self.poisoned = false;
        self.unit = None;
        self.probing = None;
        proof {
            self.framer.lemma_valid();
        }
    }

    /// The presentation or selector in force.
    pub fn selection(&self) -> (r: i32)
        ensures
            r == self@.selection,
    {
        self.selection
    }

    /// Selects another presentation, from the next major sync on.
    pub fn set_presentation(&mut self, selection: i32)
        requires
            old(self).inv(),
        ensures
            final(self).inv(),
            final(self)@ == old(self)@.with_selection(selection),
    {
        self.selection = selection;
        self.sync_signature.clear();
        self.restart_decoding();
    }

    fn restart_decoding(&mut self)
        requires
            old(self).objects.inv(),
        ensures
            final(self).objects.inv(),
            final(self).framer == old(self).framer,
            final(self).pushes == old(self).pushes,
            final(self)@ == old(self)@.restarted(),
            old(self)@.pending_flags <= 1 ==> final(self)@.pending_flags == BLOCK_DISCONTINUITY,
    {
        proof {
            assert(0u32 | 1u32 == 1u32 && 1u32 | 1u32 == 1u32) by (bit_vector);
        }
        self.restart_codec = true;
        self.waiting_for_sync = true;
        self.objects.clear();
        self.pending_flags = self.pending_flags | BLOCK_DISCONTINUITY;
    }

    fn set_error(&mut self, message: &str)
        ensures
            final(self).objects == old(self).objects,
            final(self).framer == old(self).framer,
            final(self).pushes == old(self).pushes,
            final(self)@ == old(self)@.with_error(message@),
    {
        self.last_error = replace_nul(message);
    }

    /// The last error, with no NUL in it.
    pub fn last_error(&self) -> (r: &str)
        ensures
            r@ == self@.last_error,
    {
        self.last_error.as_str()
    }

    /// Whether a panic was caught at the boundary and the engine not reset since.
    pub fn poisoned(&self) -> (r: bool)
        ensures
            r == self@.poisoned,
    {
        self.poisoned
    }

    /// Notes that a panic was caught at the boundary.
    pub fn poison(&mut self)
        requires
            old(self).inv(),
        ensures
            final(self).inv(),
            final(self)@ == (EngineView { poisoned: true, ..old(self)@ }),
    {
        self.poisoned = true;
    }

    /// Whether the counters can take a push of `len` bytes.
    pub fn has_room(&self, len: usize) -> (r: bool)
        requires
            self.inv(),
        ensures
            r == self@.has_room(len as int),
    {
        self.framer.has_room(len) && self.pushes.has_serial()
    }

    /// Takes input. What would overfill the buffer is refused whole.
    pub fn push(&mut self, data: &[u8], pts: i64) -> (r: Status)
        requires
            old(self).inv(),
            data@.len() == 0 || old(self)@.full(data@.len() as int) || old(self)@.has_room(
                data@.len() as int,
            ),
        ensures
            final(self).inv(),
            (final(self)@, r) == old(self)@.after_push(data@, pts),
    {
        if data.len() == 0 {
            return OK;
        }
        let pending: usize = self.framer.pending();
        if data.len() > MAX_PENDING_INPUT - pending {
            return ERR_BUFFER_FULL;
        }
        self.pushes.record(data.len(), pts);
        self.stats.bytes_pushed = self.stats.bytes_pushed + data.len() as u64;
        self.framer.push(data);
        proof {
            self.framer.lemma_valid();
        }
        OK
    }

    /// Counts and reports damage the framer met.
    fn sync_framer_stats(&mut self, errors_before: u64, Ghost(before): Ghost<EngineView>)
        requires
            old(self).objects.inv(),
            old(self)@ == (EngineView { framer: old(self)@.framer, ..before }),
            before.framer.sync_errors == errors_before,
            before.stats.sync_errors == errors_before,
            errors_before <= old(self)@.framer.sync_errors,
        ensures
            final(self).objects.inv(),
            final(self).framer == old(self).framer,
            final(self).pushes == old(self).pushes,
            final(self)@ == before.framed(old(self)@.framer),
            old(self)@.pending_flags <= 1 ==> final(self)@.pending_flags <= 1,
    {
        let errors: u64 = self.framer.sync_errors();
        if errors != errors_before {
            self.stats.sync_errors = self.stats.sync_errors + (errors - errors_before);
            self.set_error(
                "bitstream damage: access units failed their checks; resynchronised at a major sync",
            );
            if !self.waiting_for_sync {
                self.restart_decoding();
            }
        }
    }

    /// Takes up an access unit for decoding, unless a major sync is waited for and it is none.
    fn start_decoding(&mut self, unit: Unit) -> (r: Option<Action>)
        requires
            old(self).objects.inv(),
            unit.data@.len() >= 8,
            old(self)@.stats.access_units_skipped < u64::MAX,
        ensures
            final(self).objects == old(self).objects,
            final(self).framer == old(self).framer,
            final(self).pushes == old(self).pushes,
            (final(self)@, views(r)) == old(self)@.decoding(unit@),
    {
        self.probing = None;
        if self.waiting_for_sync && !(unit.data[4] == 0xF8 && unit.data[5] == 0x72) {
            self.stats.access_units_skipped = self.stats.access_units_skipped + 1;
            self.unit = None;
            return None;
        }
        self.unit = Some(unit);
        Some(Action::Decode)
    }

    /// Takes up an access unit: at a major sync whose configuration is new, it is probed first.
    fn take_up(&mut self, unit: Unit) -> (r: Option<Action>)
        requires
            old(self).objects.inv(),
            unit.data@.len() >= 8,
            old(self)@.stats.access_units_skipped < u64::MAX,
        ensures
            final(self).objects == old(self).objects,
            final(self).framer == old(self).framer,
            final(self).pushes == old(self).pushes,
            (final(self)@, views(r)) == old(self)@.taken_up(unit@),
    {
        if unit.info.major_sync {
            let mut found: Vec<u8> = Vec::new();
            if major_sync_signature(unit.data.as_slice(), &mut found) {
                let known: bool = same_bytes(&self.sync_signature, &found) && self.desc.is_some();
                if !known {
                    self.unit = Some(unit);
                    self.probing = Some(found);
                    return Some(Action::Probe);
                }
            }
        }
        self.start_decoding(unit)
    }

    /// Takes the next access unit from the framer.
    fn step(&mut self) -> (r: Option<Action>)
        requires
            old(self).inv(),
            old(self)@.unit is None,
            old(self)@.probing is None,
        ensures
            final(self).inv(),
            (final(self)@, views(r)) == old(self)@.stepped(),
            r is None ==> {
                &&& final(self)@.framer.pending.len() < old(self)@.framer.pending.len()
                &&& final(self)@.unit is None
                &&& final(self)@.probing is None
            },
            r matches Some(a) ==> final(self)@.awaits(a@),
    {
        let ghost v = self@;
        proof {
            assert(steps(v)) by {
                self.lemma_valid();
                lemma_steps(v);
            }
        }
        let errors_before: u64 = self.framer.sync_errors();
        let wanted: bool = !self.waiting_for_sync;
        let (info, data): (AuInfo, Option<Vec<u8>>) = match self.framer.next() {
            Next::NeedData => {
                self.sync_framer_stats(errors_before, Ghost(v));
                return Some(Action::NeedMoreData);
            },
            Next::Skipped(info) => (info, None),
            Next::Au(info, bytes) => (
                info,
                // Only access units that will be parsed need their own copy.
                if wanted || info.major_sync {
                    Some(slice_to_vec(bytes))
                } else {
                    None
                },
            ),
        };
        self.sync_framer_stats(errors_before, Ghost(v));
        let (pts, pts_au_index): (i64, u32) = self.pushes.attribute(info.offset);
        match data {
            None => {
                self.stats.access_units_skipped = self.stats.access_units_skipped + 1;
                None
            },
            Some(data) => self.take_up(Unit { info, pts, pts_au_index, data }),
        }
    }

    /// Runs until there is something for the caller to do.
    pub fn pull(&mut self) -> (r: Action)
        requires
            old(self).inv(),
            old(self)@.unit is None,
            old(self)@.probing is None,
        ensures
            final(self).inv(),
            (final(self)@, r@) == old(self)@.advanced(),
            final(self)@.awaits(r@),
    {
        let mut action: Option<Action> = None;
        while action.is_none()
            invariant
                self.inv(),
                action is None ==> {
                    &&& self@.unit is None
                    &&& self@.probing is None
                    &&& self@.advanced() == old(self)@.advanced()
                },
                action matches Some(a) ==> (self@, a@) == old(self)@.advanced() && self@.awaits(a@),
            decreases
                    (if action is None {
                        self@.framer.pending.len() + 1
                    } else {
                        0
                    }),
        {
            action = self.step();
        }
        action.unwrap()
    }

    /// The access unit to parse or decode, while there is one.
    pub fn unit(&self) -> (r: Option<&Unit>)
        ensures
            match r {
                Some(u) => self@.unit == Some(u@),
                None => self@.unit is None,
            },
    {
        self.unit.as_ref()
    }

    /// What the parser and decoder have to be told before the next access unit.
    pub fn take_orders(&mut self) -> (r: CodecOrders)
        requires
            old(self).inv(),
        ensures
            final(self).inv(),
            final(self)@ == (EngineView {
                restart_codec: false,
                set_required: false,
                ..old(self)@
            }),
            r.restart == old(self)@.restart_codec,
            r.required is Some == old(self)@.set_required,
            r.required matches Some(required) ==> required@ == old(self)@.required,
    {
        let orders = CodecOrders {
            restart: self.restart_codec,
            required: if self.set_required {
                Some(self.required)
            } else {
                None
            },
        };
        self.restart_codec = false;
        self.set_required = false;
        orders
    }

    fn apply_required(&mut self, resolved: usize)
        requires
            resolved < MAX_PRESENTATIONS,
        ensures
            final(self).objects == old(self).objects,
            final(self).framer == old(self).framer,
            final(self).pushes == old(self).pushes,
            final(self)@ == old(self)@.requiring(resolved as int),
    {
        self.resolved = resolved;
        self.required = [resolved == 0, resolved == 1, resolved == 2, resolved == 3];
        self.set_required = true;
        proof {
            assert(self@.required =~= old(self)@.requiring(resolved as int).required);
        }
    }

    /// At a major sync whose configuration is new: learns the stream and sets the parser and
    /// decoder up for the presentation to decode.
    fn configure(&mut self, probed: Result<StreamDesc, String>)
        requires
            old(self).inv(),
            old(self)@.probing is Some,
            probed matches Ok(desc) ==> desc.access_unit_frames <= 160,
        ensures
            final(self).inv(),
            final(self)@ == (match probed {
                Ok(desc) => old(self)@.configured(desc),
                Err(text) => old(self)@.unconfigured(text@),
            }),
    {
        match probed {
            Err(message) => {
                self.set_error(message.as_str());
                self.apply_required(fallback_resolution(self.selection));
            },
            Ok(desc) => {
                let resolved: usize = resolve(self.selection, &desc.map);
                let configured_before: bool = self.sync_signature.len() > 0;
                if let Some(found) = &self.probing {
                    self.sync_signature = slice_to_vec(found.as_slice());
                }
                self.desc = Some(desc);
                if configured_before && !self.waiting_for_sync {
                    self.restart_decoding();
                }
                self.apply_required(resolved);
            },
        }
    }

    /// Goes on from a probe of the current access unit. Where the stream was learnt, its
    /// description is the one in force afterwards.
    pub fn probed(&mut self, outcome: ProbeOutcome) -> (r: Action)
        requires
            old(self).inv(),
            old(self)@.unit is Some,
            old(self)@.probing is Some,
        ensures
            final(self).inv(),
            final(self)@.awaits(r@),
            match outcome {
                ProbeOutcome::Panicked(text) => (final(self)@, r@) == old(self)@.unconfigured(
                    "probe panicked: "@ + text@,
                ).after_probe(),
                ProbeOutcome::Parsed(Err(text)) => (final(self)@, r@) == old(self)@.unconfigured(
                    "probe: "@ + text@,
                ).after_probe(),
                ProbeOutcome::Parsed(Ok(None)) => (final(self)@, r@) == old(self)@.unconfigured(
                    "probe: not a major sync"@,
                ).after_probe(),
                ProbeOutcome::Parsed(Ok(Some(facts))) => match rate_of(facts.sampling_code) {
                    None => (final(self)@, r@) == old(self)@.unconfigured(
                        rate_error(facts.sampling_code),
                    ).after_probe(),
                    Some(_) => {
                        &&& final(self)@.desc is Some
                        &&& describes(final(self)@.desc->0, facts)
                        &&& (final(self)@, r@) == old(self)@.configured(
                            final(self)@.desc->0,
                        ).after_probe()
                    },
                },
            },
    {
        let result: Result<StreamDesc, String> = match outcome {
            ProbeOutcome::Panicked(text) => Err(
                String::from_str("probe panicked: ").concat(text.as_str()),
            ),
            ProbeOutcome::Parsed(parsed) => probe(parsed),
        };
        self.configure(result);
        let unit: Unit = self.unit.take().unwrap();
        let action = self.start_decoding(unit);
        match action {
            Some(a) => a,
            None => {
                proof {
                    law_advancing_keeps_position(self@);
                }
                self.pull()
            },
        }
    }

    /// Takes in one metadata payload of the current access unit.
    fn take_payload(&mut self, arrival: &OamdArrival, channels: usize)
        requires
            old(self).objects.inv(),
            old(self)@.sample_position <= 0x4000_0000_0000_0000,
            old(self)@.stats.oamd_payloads < u64::MAX,
            old(self)@.stats.oamd_errors < u64::MAX,
        ensures
            final(self).objects.inv(),
            final(self).framer == old(self).framer,
            final(self).pushes == old(self).pushes,
            final(self)@ == old(self)@.with_payload(*arrival, channels as int),
    {
        let error: Option<String> = match &arrival.payload {
            Ok(payload) => match self.objects.ingest(
                payload,
                self.sample_position,
                arrival.offset as u64,
                channels,
            ) {
                Ok(_) => None,
                Err(e) => Some(e.message()),
            },
            Err(failure) => Some(failure.message()),
        };
        match error {
            None => {
                self.stats.oamd_payloads = self.stats.oamd_payloads + 1;
                self.oamd_seen = true;
            },
            Some(message) => {
                self.stats.oamd_errors = self.stats.oamd_errors + 1;
                self.set_error(message.as_str());
            },
        }
    }

    /// Takes in all metadata payloads of the current access unit.
    fn take_payloads(&mut self, oamd: &Vec<OamdArrival>, channels: usize)
        requires
            old(self).objects.inv(),
            old(self)@.sample_position <= 0x4000_0000_0000_0000,
            old(self)@.stats.oamd_payloads + old(self)@.stats.oamd_errors + oamd@.len() < u64::MAX,
        ensures
            final(self).objects.inv(),
            final(self).framer == old(self).framer,
            final(self).pushes == old(self).pushes,
            final(self)@ == old(self)@.with_payloads(oamd@, channels as int),
    {
        let ghost v = self@;
        let mut i: usize = 0;
        while i < oamd.len()
            invariant
                i <= oamd.len(),
                self.objects.inv(),
                self.framer == old(self).framer,
                self.pushes == old(self).pushes,
                v == old(self)@,
                v.sample_position <= 0x4000_0000_0000_0000,
                v.stats.oamd_payloads + v.stats.oamd_errors + oamd@.len() < u64::MAX,
                self@ == v.with_payloads(oamd@.take(i as int), channels as int),
                payload_counts(v, self@, i as int),
            decreases oamd.len() - i,
        {
            proof {
                assert(oamd@.take(i + 1).drop_last() =~= oamd@.take(i as int));
            }
            self.take_payload(&oamd[i], channels);
            i = i + 1;
        }
        proof {
            assert(oamd@.take(i as int) =~= oamd@);
        }
    }

    /// The speakers a block reports.
    fn block_speakers(&self, d: &DecodedUnit, presentation: usize, channels: usize) -> (r: [u8; 16])
        requires
            self.objects.inv(),
            channels <= MAX_CHANNELS,
        ensures
            r@ == self@.speakers(*d, presentation as int, channels as int),
    {
        proof {
            reveal(EngineView::speakers);
        }
        let objects: bool = presentation == OBJECT_PRESENTATION && match &self.desc {
            Some(desc) => desc.has_objects,
            None => false,
        };
        // For an object presentation the metadata layout in force decides the roles; before the
        // first payload since reset the major sync is all there is. They agree on conforming
        // streams, so the roles (and the layout serial) do not move when metadata arrives.
        let mut speakers: [u8; 16] = roles(d.channel_labels.as_slice(), channels, objects);
        if let Some(layout) = self.objects.layout() {
            if objects && layout.element_count == channels {
                speakers = layout.speakers;
            }
        }
        let ghost stated = speakers@;
        let mut i: usize = channels;
        while i < MAX_CHANNELS
            invariant
                channels <= i <= MAX_CHANNELS,
                stated.len() == MAX_CHANNELS,
                forall|k: int| 0 <= k < channels ==> speakers[k] == stated[k],
                forall|k: int| channels <= k < i ==> speakers[k] == SPEAKER_UNKNOWN,
            decreases MAX_CHANNELS - i,
        {
            speakers[i] = SPEAKER_UNKNOWN;
            i = i + 1;
        }
        proof {
            assert(speakers@ =~= self@.speakers(*d, presentation as int, channels as int));
        }
        speakers
    }

    /// Notes the roles of a block, and returns whether they moved.
    fn note_roles(&mut self, roles: Roles) -> (moved: bool)
        ensures
            moved == (old(self)@.roles != Some(roles@)),
            final(self)@ == (EngineView {
                roles: Some(roles@),
                layout_serial: if moved {
                    old(self)@.layout_serial.wrapping_add(1)
                } else {
                    old(self)@.layout_serial
                },
                ..old(self)@
            }),
            final(self).objects == old(self).objects,
            final(self).framer == old(self).framer,
            final(self).pushes == old(self).pushes,
    {
        let moved: bool = match &self.roles {
            Some(r) => !r.same(&roles),
            None => true,
        };
        if moved {
            self.layout_serial = self.layout_serial.wrapping_add(1);
            self.roles = Some(roles);
        }
        moved
    }

    /// Assembles a block once its metadata stand.
    fn finish(
        &mut self,
        d: &DecodedUnit,
        presentation: usize,
        unit: &Unit,
        metadata: Option<Metadata>,
    ) -> (r: Block)
        requires
            old(self).framer.inv(),
            old(self).objects.inv(),
            0 <= old(self)@.sample_position <= 160 * old(self)@.stats.blocks_output,
            old(self)@.stats.frames_output <= 160 * old(self)@.stats.blocks_output,
            old(self)@.stats.metadata_updates <= 16 * old(self)@.stats.blocks_output,
            old(self)@.stats.blocks_output <= 0x40_0000_0000_0000,
            unit.info.ordinal <= 0x40_0000_0000_0000,
            presentation < MAX_PRESENTATIONS,
            old(self)@.desc matches Some(desc) ==> desc.access_unit_frames <= 160,
            metadata matches Some(m) ==> m.updates@.len() <= MAX_UPDATES_PER_BLOCK,
        ensures
            final(self).framer == old(self).framer,
            final(self).pushes == old(self).pushes,
            final(self).objects == old(self).objects,
            (final(self)@, r@) == old(self)@.finished(
                *d,
                presentation as int,
                unit@,
                (match metadata {
                    Some(m) => Some(m@),
                    None => None,
                }),
            ),
    {
        let frames: u32 = block_frames(d);
        let channels: usize = block_channels(d);
        let start: u64 = self.sample_position;
        let speakers: [u8; 16] = self.block_speakers(d, presentation, channels);
        let moved: bool = self.note_roles(
            Roles {
                sample_rate: d.sampling_frequency,
                presentation: presentation as u32,
                channels: channels as u32,
                speakers,
            },
        );
        let updates: usize = match &metadata {
            Some(m) => m.updates.len(),
            None => 0,
        };
        let flags: u32 = self.pending_flags | flag(moved, BLOCK_LAYOUT_CHANGED) | flag(
            metadata.is_some(),
            BLOCK_HAS_METADATA,
        ) | flag(updates > 0, BLOCK_METADATA_UPDATED) | flag(
            self.framer.estimated(),
            BLOCK_INPUT_OFFSET_ESTIMATED,
        );
        let access_unit_frames: u32 = match &self.desc {
            Some(desc) => desc.access_unit_frames,
            None => d.sample_length as u32,
        };
        proof {
            assert(unit.info.ordinal * access_unit_frames <= 0x40_0000_0000_0000 * 256)
                by (nonlinear_arith)
                requires
                    unit.info.ordinal <= 0x40_0000_0000_0000,
                    access_unit_frames <= 256,
            ;
        }
        self.pending_flags = 0;
        self.sample_position = start + frames as u64;
        self.stats.metadata_updates = self.stats.metadata_updates + updates as u64;
        self.stats.blocks_output = self.stats.blocks_output + 1;
        self.stats.frames_output = self.stats.frames_output + frames as u64;
        Block {
            sample_rate: d.sampling_frequency,
            frame_count: frames,
            channel_count: channels as u32,
            presentation: presentation as u32,
            flags,
            access_unit_frames,
            pts: unit.pts,
            pts_au_index: unit.pts_au_index,
            layout_serial: self.layout_serial,
            sample_position: start,
            input_access_unit: unit.info.ordinal,
            input_frame_offset: unit.info.ordinal * access_unit_frames as u64,
            speakers,
            metadata,
        }
    }

    /// Assembles the block of a decoded presentation.
    fn emit(
        &mut self,
        d: &DecodedUnit,
        presentation: usize,
        unit: &Unit,
        oamd: &Vec<OamdArrival>,
    ) -> (r: Block)
        requires
            old(self).framer.inv(),
            old(self).objects.inv(),
            0 <= old(self)@.sample_position <= 160 * old(self)@.stats.blocks_output,
            old(self)@.stats.frames_output <= 160 * old(self)@.stats.blocks_output,
            old(self)@.stats.metadata_updates <= 16 * old(self)@.stats.blocks_output,
            old(self)@.stats.blocks_output <= 0x40_0000_0000_0000,
            old(self)@.stats.oamd_payloads + old(self)@.stats.oamd_errors + oamd@.len()
                <= 0x40_0000_0000_0000,
            unit.info.ordinal <= 0x40_0000_0000_0000,
            presentation < MAX_PRESENTATIONS,
            old(self)@.desc matches Some(desc) ==> desc.access_unit_frames <= 160,
        ensures
            final(self).framer == old(self).framer,
            final(self).pushes == old(self).pushes,
            final(self).objects.inv(),
            (final(self)@, r@) == old(self)@.emitted(*d, presentation as int, unit@, oamd@),
    {
        let ghost v = self@;
        proof {
            reveal(EngineView::emitted);
            lemma_payload_counts(v, oamd@, channels_of(*d));
        }
        if presentation == OBJECT_PRESENTATION {
            self.take_payloads(oamd, block_channels(d));
        }
        let metadata: Option<Metadata> = self.objects.begin_block(
            self.sample_position,
            block_frames(d),
        );
        self.finish(d, presentation, unit, metadata)
    }

    /// Gives the current access unit up as undecodable.
    fn fail(&mut self, message: &str)
        requires
            old(self).inv(),
            old(self)@.unit is Some,
        ensures
            final(self).inv(),
            final(self)@ == old(self)@.released().failed(message@),
    {
        self.unit = None;
        self.probing = None;
        self.stats.decode_errors = self.stats.decode_errors + 1;
        self.set_error(message);
        self.restart_decoding();
    }

    /// Goes on from decoding the current access unit: with what the decoder produced for each
    /// presentation, and the object metadata that the access unit carried.
    pub fn decoded(
        &mut self,
        outcome: Result<Vec<Option<DecodedUnit>>, DecodeFailure>,
        oamd: Vec<OamdArrival>,
    ) -> (r: Action)
        requires
            old(self).inv(),
            old(self)@.unit is Some,
            old(self)@.probing is None,
            outcome matches Ok(slots) ==> slots@.len() <= MAX_PRESENTATIONS,
            oamd@.len() <= old(self)@.unit->0.data.len(),
        ensures
            final(self).inv(),
            final(self)@.awaits(r@),
            (final(self)@, r@) == (match outcome {
                Ok(slots) => old(self)@.after_decode(slots@, oamd@),
                Err(failure) => old(self)@.after_failure(failure.text()),
            }),
    {
        let slots: Vec<Option<DecodedUnit>> = match outcome {
            Err(failure) => {
                let message: String = failure.message();
                self.fail(message.as_str());
                return self.pull();
            },
            Ok(slots) => slots,
        };
        let mut i: usize = 0;
        while i < slots.len() && slots[i].is_none()
            invariant
                i <= slots.len(),
                first_decoded(slots@, 0) == first_decoded(slots@, i as int),
            decreases slots.len() - i,
        {
            i = i + 1;
        }
        if i >= slots.len() {
            self.fail("decoder produced no presentation");
            return self.pull();
        }
        match &slots[i] {
            None => {
                self.fail("decoder produced no presentation");
                self.pull()
            },
            Some(d) => {
                let unit: Unit = self.unit.take().unwrap();
                self.waiting_for_sync = false;
                self.stats.access_units_decoded = self.stats.access_units_decoded + 1;
                if d.is_duplicate {
                    // Encoder duplicate at a splice: its audio (and metadata) repeat the
                    // previous access unit.
                    self.stats.duplicate_access_units = self.stats.duplicate_access_units + 1;
                    return self.pull();
                }
                let ghost w = self@;
                let block = self.emit(d, i, &unit, &oamd);
                proof {
                    lemma_emitted_counts(w, *d, i as int, unit@, oamd@);
                }
                Action::Output(block)
            },
        }
    }

    /// What is known of the stream, once it was learnt.
    pub fn stream_info(&self) -> (r: Option<StreamInfo>)
        requires
            self.inv(),
        ensures
            r is Some == self@.desc is Some,
            r matches Some(info) ==> {
                let desc = self@.desc->0;
                &&& info.format == desc.format
                &&& info.sample_rate == desc.sample_rate
                &&& info.access_unit_frames == desc.access_unit_frames
                &&& info.substream_count == desc.substreams
                &&& info.selected_presentation == self@.resolved
                &&& info.immersive == (if desc.immersive {
                    1u32
                } else {
                    0u32
                })
                &&& info.has_objects == (if desc.has_objects {
                    1u32
                } else {
                    0u32
                })
                &&& info.oamd_seen == (if self@.oamd_seen {
                    1u32
                } else {
                    0u32
                })
                &&& info.layout_serial == self@.layout_serial
                &&& info.presentations == desc.presentations
            },
    {
        match &self.desc {
            None => None,
            Some(desc) => Some(
                StreamInfo {
                    format: desc.format,
                    sample_rate: desc.sample_rate,
                    access_unit_frames: desc.access_unit_frames,
                    substream_count: desc.substreams,
                    selected_presentation: self.resolved as u32,
                    immersive: flag(desc.immersive, 1),
                    has_objects: flag(desc.has_objects, 1),
                    oamd_seen: flag(self.oamd_seen, 1),
                    layout_serial: self.layout_serial,
                    presentations: desc.presentations,
                },
            ),
        }
    }

    /// The counts since creation or reset, with the bytes pending now.
    pub fn stats(&self) -> (r: Stats)
        requires
            self.inv(),
        ensures
            r == (Stats { bytes_pending: self@.framer.pending.len() as u64, ..self@.stats }),
            r.access_units_decoded == r.blocks_output + r.duplicate_access_units,
            r.frames_output == self@.sample_position,
            r.bytes_pushed == self@.framer.consumed + r.bytes_pending,
    {
        let mut stats: Stats = self.stats;
        stats.bytes_pending = self.framer.pending() as u64;
        stats
    }
}

/// Assembling a block keeps the counts in proportion.
pub proof fn lemma_emitted_counts(
    v: EngineView,
    d: DecodedUnit,
    presentation: int,
    unit: UnitView,
    oamd: Seq<OamdArrival>,
)
    requires
        v.stats.oamd_payloads + v.stats.oamd_errors + oamd.len() <= 0x40_0000_0000_0000,
        v.stats.blocks_output <= 0x40_0000_0000_0000,
        v.stats.frames_output <= 160 * v.stats.blocks_output,
        v.stats.metadata_updates <= 16 * v.stats.blocks_output,
        0 <= v.sample_position <= 160 * v.stats.blocks_output,
    ensures
        ({
            let w = v.emitted(d, presentation, unit, oamd).0;
            &&& w.stats.oamd_payloads + w.stats.oamd_errors <= v.stats.oamd_payloads
                + v.stats.oamd_errors + oamd.len()
            &&& w.stats.blocks_output == v.stats.blocks_output + 1
            &&& w.stats.frames_output <= 160 * w.stats.blocks_output
            &&& w.stats.metadata_updates <= 16 * w.stats.blocks_output
            &&& 0 <= w.sample_position <= 160 * w.stats.blocks_output
            &&& v.stats.frames_output == v.sample_position ==> w.stats.frames_output
                == w.sample_position
            &&& w == (EngineView {
                roles: w.roles,
                layout_serial: w.layout_serial,
                pending_flags: 0,
                sample_position: w.sample_position,
                objects: w.objects,
                oamd_seen: w.oamd_seen,
                last_error: w.last_error,
                stats: Stats {
                    oamd_payloads: w.stats.oamd_payloads,
                    oamd_errors: w.stats.oamd_errors,
                    metadata_updates: w.stats.metadata_updates,
                    blocks_output: w.stats.blocks_output,
                    frames_output: w.stats.frames_output,
                    ..v.stats
                },
                ..v
            })
            &&& w.roles is Some
            &&& w.roles->0.speakers.len() == MAX_CHANNELS
        }),
{
    reveal(EngineView::emitted);
    reveal(EngineView::speakers);
    reveal(ObjectView::begin_block);
    lemma_payload_counts(v, oamd, channels_of(d));
    let u = if presentation == OBJECT_PRESENTATION {
        v.with_payloads(oamd, channels_of(d))
    } else {
        v
    };
    lemma_delivered_len(u.objects, u.sample_position, u.sample_position + frames_of(d), 0);
}

fn block_frames(d: &DecodedUnit) -> (r: u32)
    ensures
        r == frames_of(*d),
{
    if (d.sample_length as usize) < MAX_BLOCK_FRAMES {
        d.sample_length as u32
    } else {
        MAX_BLOCK_FRAMES as u32
    }
}

fn block_channels(d: &DecodedUnit) -> (r: usize)
    ensures
        r == channels_of(*d),
{
    if d.channel_count < MAX_CHANNELS {
        d.channel_count
    } else {
        MAX_CHANNELS
    }
}

/// What taking in `n` payloads does to the counters, and leaves alone.
pub open spec fn payload_counts(v: EngineView, w: EngineView, n: int) -> bool {
    &&& w.stats.oamd_payloads + w.stats.oamd_errors == v.stats.oamd_payloads + v.stats.oamd_errors
        + n
    &&& w == (EngineView {
        objects: w.objects,
        oamd_seen: w.oamd_seen,
        last_error: w.last_error,
        stats: Stats {
            oamd_payloads: w.stats.oamd_payloads,
            oamd_errors: w.stats.oamd_errors,
            ..v.stats
        },
        ..v
    })
}

pub proof fn lemma_payload_counts(v: EngineView, oamd: Seq<OamdArrival>, channels: int)
    requires
        v.stats.oamd_payloads + v.stats.oamd_errors + oamd.len() < u64::MAX,
    ensures
        payload_counts(v, v.with_payloads(oamd, channels), oamd.len() as int),
    decreases oamd.len(),
{
    if oamd.len() > 0 {
        lemma_payload_counts(v, oamd.drop_last(), channels);
    }
}

} // verus!
