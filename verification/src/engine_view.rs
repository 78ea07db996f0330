//! The engine as a mathematical value, and what each of its operations makes of it.

use crate::events::{ActionView, BlockView, DecodedUnit, OamdArrival, UnitView};
use crate::framer::{FramerView, NextView, MAX_STREAM_BYTES};
use crate::objects::{flag_if, MetadataView, ObjectView};
use crate::pushes::{PushesView, MAX_PENDING_INPUT};
use crate::stream::{resolved, roles_of, signature, StreamDesc};
use crate::text::without_nul;
use crate::types::{
    Stats, Status, BLOCK_DISCONTINUITY, BLOCK_HAS_METADATA, BLOCK_INPUT_OFFSET_ESTIMATED,
    BLOCK_LAYOUT_CHANGED, BLOCK_METADATA_UPDATED, ERR_BUFFER_FULL, MAX_BLOCK_FRAMES, MAX_CHANNELS,
    MAX_PRESENTATIONS, OK, PRESENTATION_HIGHEST, PRESENTATION_HIGHEST_CHANNEL_BASED,
    SPEAKER_UNKNOWN,
};
use vstd::prelude::*;

verus! {

/// The presentation that carries objects.
pub const OBJECT_PRESENTATION: usize = 3;

/// Channel roles as blocks report them.
pub struct RolesView {
    pub sample_rate: u32,
    pub presentation: int,
    pub channels: int,
    pub speakers: Seq<u8>,
}

/// An engine as a mathematical value.
pub struct EngineView {
    pub selection: i32,
    pub framer: FramerView,
    pub pushes: PushesView,
    /// Decoding restarts at the next major sync.
    pub waiting_for_sync: bool,
    /// Major sync signature of the configuration the parser and decoder are set up for.
    pub sync_signature: Seq<u8>,
    pub desc: Option<StreamDesc>,
    pub resolved: int,
    pub oamd_seen: bool,
    pub sample_position: int,
    pub pending_flags: u32,
    pub roles: Option<RolesView>,
    pub layout_serial: u32,
    pub objects: ObjectView,
    pub stats: Stats,
    pub last_error: Seq<char>,
    pub poisoned: bool,
    /// The access unit being parsed or decoded.
    pub unit: Option<UnitView>,
    /// Its major sync signature, while it is being probed.
    pub probing: Option<Seq<u8>>,
    /// Whether the parser and decoder are to restart.
    pub restart_codec: bool,
    /// Whether the presentations to decode are to be set anew.
    pub set_required: bool,
    pub required: Seq<bool>,
}

/// What `fallback_resolution` returns: 3 for the highest presentation, 2 for the highest
/// channel-based one, else the number brought into range.
pub open spec fn fallback(selection: i32) -> usize {
    if selection == PRESENTATION_HIGHEST {
        3
    } else if selection == PRESENTATION_HIGHEST_CHANNEL_BASED {
        2
    } else if selection < 0 {
        0
    } else if selection > 3 {
        3
    } else {
        selection as usize
    }
}

/// Whether an access unit looks like a major sync to the parser.
pub open spec fn looks_major(data: Seq<u8>) -> bool {
    data[4] == 0xF8 && data[5] == 0x72
}

/// The first presentation that was decoded, from number `i` on.
pub open spec fn first_decoded(slots: Seq<Option<DecodedUnit>>, i: int) -> Option<int>
    decreases slots.len() - i,
{
    if i >= slots.len() {
        None
    } else if slots[i] is Some {
        Some(i)
    } else {
        first_decoded(slots, i + 1)
    }
}

/// Frames of a decoded presentation that go into its block.
pub open spec fn frames_of(d: DecodedUnit) -> int {
    if d.sample_length < MAX_BLOCK_FRAMES {
        d.sample_length as int
    } else {
        MAX_BLOCK_FRAMES as int
    }
}

/// Channels of a decoded presentation that go into its block.
pub open spec fn channels_of(d: DecodedUnit) -> int {
    if d.channel_count < MAX_CHANNELS {
        d.channel_count as int
    } else {
        MAX_CHANNELS as int
    }
}

/// The message that reports damage.
pub open spec fn damage_text() -> Seq<char> {
    "bitstream damage: access units failed their checks; resynchronised at a major sync"@
}

impl EngineView {
    /// An engine that has seen nothing.
    pub open spec fn fresh(selection: i32) -> EngineView {
        EngineView {
            selection,
            framer: FramerView::fresh(),
            pushes: PushesView::fresh(),
            waiting_for_sync: true,
            sync_signature: Seq::empty(),
            desc: None,
            resolved: 0,
            oamd_seen: false,
            sample_position: 0,
            pending_flags: BLOCK_DISCONTINUITY,
            roles: None,
            layout_serial: 0,
            objects: ObjectView::fresh(),
            stats: Stats::zero(),
            last_error: Seq::empty(),
            poisoned: false,
            unit: None,
            probing: None,
            restart_codec: false,
            set_required: false,
            required: seq![false, false, false, false],
        }
    }

    /// Decoding set to restart at the next major sync.
    pub open spec fn restarted(self) -> EngineView {
        EngineView {
            waiting_for_sync: true,
            objects: self.objects.cleared(),
            pending_flags: self.pending_flags | BLOCK_DISCONTINUITY,
            restart_codec: true,
            ..self
        }
    }

    /// An error noted.
    pub open spec fn with_error(self, text: Seq<char>) -> EngineView {
        EngineView { last_error: without_nul(text), ..self }
    }

    /// An access unit that could not be decoded.
    pub open spec fn failed(self, text: Seq<char>) -> EngineView {
        EngineView {
            stats: Stats { decode_errors: (self.stats.decode_errors + 1) as u64, ..self.stats },
            ..self
        }.with_error(text).restarted()
    }

    /// Input and decode state dropped. The selection, the stream description, the layout serial
    /// (with the roles it stands for) and what the framer learnt of the stream survive.
    pub open spec fn after_reset(self) -> EngineView {
        EngineView {
            framer: self.framer.after_reset(),
            pushes: self.pushes.after_reset(),
            sample_position: 0,
            oamd_seen: false,
            stats: Stats::zero(),
            last_error: Seq::empty(),
            poisoned: false,
            unit: None,
            probing: None,
            ..self.restarted()
        }
    }

    /// Another presentation selected; the stream is configured anew at the next major sync.
    pub open spec fn with_selection(self, selection: i32) -> EngineView {
        EngineView { selection, sync_signature: Seq::empty(), ..self }.restarted()
    }

    /// Whether `len` more bytes would overfill the input buffer.
    pub open spec fn full(self, len: int) -> bool {
        self.framer.pending.len() + len > MAX_PENDING_INPUT
    }

    /// Whether the counters can take `len` more bytes.
    pub open spec fn has_room(self, len: int) -> bool {
        self.framer.has_room(len) && self.pushes.next_serial < u64::MAX
    }

    /// Input pushed. Nothing is no input; what would overfill the buffer is refused.
    pub open spec fn after_push(self, data: Seq<u8>, pts: i64) -> (EngineView, Status) {
        if data.len() == 0 {
            (self, OK)
        } else if self.full(data.len() as int) {
            (self, ERR_BUFFER_FULL)
        } else {
            (
                EngineView {
                    framer: self.framer.after_push(data),
                    pushes: self.pushes.recorded(data.len() as int, pts),
                    stats: Stats {
                        bytes_pushed: (self.stats.bytes_pushed + data.len()) as u64,
                        ..self.stats
                    },
                    ..self
                },
                OK,
            )
        }
    }

    /// The framer stepped on: damage it met is counted and reported, and decoding restarts.
    pub open spec fn framed(self, framer: FramerView) -> EngineView {
        let errors = framer.sync_errors - self.framer.sync_errors;
        let v = EngineView { framer, ..self };
        if errors == 0 {
            v
        } else {
            let w = EngineView {
                stats: Stats {
                    sync_errors: (self.stats.sync_errors + errors) as u64,
                    ..self.stats
                },
                ..v
            }.with_error(damage_text());
            if self.waiting_for_sync {
                w
            } else {
                w.restarted()
            }
        }
    }

    /// An access unit passed over.
    pub open spec fn skipped(self) -> EngineView {
        EngineView {
            stats: Stats {
                access_units_skipped: (self.stats.access_units_skipped + 1) as u64,
                ..self.stats
            },
            ..self
        }
    }

    /// Whether a major sync access unit has to be probed: its configuration is not the one the
    /// decoder is set up for.
    pub open spec fn needs_probe(self, data: Seq<u8>) -> bool {
        match signature(data) {
            None => false,
            Some(s) => !(self.sync_signature == s && self.desc is Some),
        }
    }

    /// An access unit about to be decoded, unless a major sync is waited for and it is none.
    pub open spec fn decoding(self, unit: UnitView) -> (EngineView, Option<ActionView>) {
        if self.waiting_for_sync && !looks_major(unit.data) {
            (EngineView { unit: None, probing: None, ..self.skipped() }, None)
        } else {
            (
                EngineView { unit: Some(unit), probing: None, ..self },
                Some(ActionView::Decode),
            )
        }
    }

    /// An access unit taken up: probed first if it is a major sync that needs it.
    pub open spec fn taken_up(self, unit: UnitView) -> (EngineView, Option<ActionView>) {
        if unit.info.major_sync && self.needs_probe(unit.data) {
            (
                EngineView { unit: Some(unit), probing: signature(unit.data), ..self },
                Some(ActionView::Probe),
            )
        } else {
            self.decoding(unit)
        }
    }

    /// The next access unit from the framer, with its pts: the action it calls for, if any. One
    /// that is skipped, or that no major sync came before, calls for none.
    pub open spec fn stepped(self) -> (EngineView, Option<ActionView>) {
        let (framer, next) = self.framer.next();
        let v = self.framed(framer);
        match next {
            NextView::NeedData => (v, Some(ActionView::NeedMoreData)),
            NextView::Skipped(info) => {
                let (pushes, _, _) = v.pushes.attributed(info.offset as int);
                (EngineView { pushes, ..v }.skipped(), None)
            },
            NextView::Au(info, data) => {
                let (pushes, pts, pts_au_index) = v.pushes.attributed(info.offset as int);
                let w = EngineView { pushes, ..v };
                if self.waiting_for_sync && !info.major_sync {
                    (w.skipped(), None)
                } else {
                    w.taken_up(UnitView { info, pts, pts_au_index, data })
                }
            },
        }
    }

    /// Steps taken until one calls for an action.
    pub open spec fn advanced(self) -> (EngineView, ActionView)
        decreases self.framer.pending.len(),
    {
        let (v, action) = self.stepped();
        match action {
            Some(a) => (v, a),
            None => if v.framer.pending.len() < self.framer.pending.len() {
                v.advanced()
            } else {
                (v, ActionView::NeedMoreData)
            },
        }
    }

    /// On from a step that may have called for an action.
    pub open spec fn resumed(self, action: Option<ActionView>) -> (EngineView, ActionView) {
        match action {
            Some(a) => (self, a),
            None => self.advanced(),
        }
    }

    /// Whether the engine is in the state in which it asks for `action`: an access unit is at
    /// hand to be probed or decoded, or there is none.
    pub open spec fn awaits(self, action: ActionView) -> bool {
        match action {
            ActionView::Probe => self.unit is Some && self.probing is Some,
            ActionView::Decode => self.unit is Some && self.probing is None,
            _ => self.unit is None && self.probing is None,
        }
    }

    /// The presentation to decode set.
    pub open spec fn requiring(self, resolved: int) -> EngineView {
        EngineView {
            resolved,
            required: Seq::new(MAX_PRESENTATIONS as nat, |i: int| i == resolved),
            set_required: true,
            ..self
        }
    }

    /// The stream learnt anew from the access unit being probed. A change of configuration
    /// mid-stream starts cleanly at this access unit.
    pub open spec fn configured(self, desc: StreamDesc) -> EngineView {
        let v = EngineView { sync_signature: self.probing->0, desc: Some(desc), ..self };
        let w = if self.sync_signature.len() > 0 && !self.waiting_for_sync {
            v.restarted()
        } else {
            v
        };
        w.requiring(resolved(self.selection, desc.map.masks@) as int)
    }

    /// The stream could not be learnt: still decodable with the selector alone; the probe is
    /// tried again at the next major sync.
    pub open spec fn unconfigured(self, text: Seq<char>) -> EngineView {
        self.with_error(text).requiring(fallback(self.selection) as int)
    }

    /// On from a probe to decoding the same access unit.
    pub open spec fn after_probe(self) -> (EngineView, ActionView) {
        let (v, action) = self.decoding(self.unit->0);
        v.resumed(action)
    }

    /// A metadata payload of the current access unit taken in.
    pub open spec fn with_payload(self, arrival: OamdArrival, channels: int) -> EngineView {
        let base = self.sample_position + arrival.offset;
        let (objects, error): (ObjectView, Option<Seq<char>>) = match arrival.payload {
            Ok(payload) => {
                let (objects, r) = self.objects.ingest(payload, base, channels);
                (
                    objects,
                    match r {
                        Ok(_) => None,
                        Err(e) => Some(e.text()),
                    },
                )
            },
            Err(failure) => (self.objects, Some(failure.text())),
        };
        match error {
            None => EngineView {
                objects,
                oamd_seen: true,
                stats: Stats { oamd_payloads: (self.stats.oamd_payloads + 1) as u64, ..self.stats },
                ..self
            },
            Some(text) => EngineView {
                objects,
                stats: Stats { oamd_errors: (self.stats.oamd_errors + 1) as u64, ..self.stats },
                ..self
            }.with_error(text),
        }
    }

    /// All metadata payloads of the current access unit taken in.
    pub open spec fn with_payloads(self, oamd: Seq<OamdArrival>, channels: int) -> EngineView
        decreases oamd.len(),
    {
        if oamd.len() == 0 {
            self
        } else {
            self.with_payloads(oamd.drop_last(), channels).with_payload(oamd.last(), channels)
        }
    }

    /// Whether `presentation` is one of objects.
    pub open spec fn objects_in(self, presentation: int) -> bool {
        presentation == OBJECT_PRESENTATION && self.desc is Some && self.desc->0.has_objects
    }

    /// The speakers a block reports: for an object presentation the metadata layout in force
    /// decides, if it describes as many channels; otherwise, and before the first payload since
    /// reset, the major sync is all there is.
    #[verifier::opaque]
    pub open spec fn speakers(self, d: DecodedUnit, presentation: int, channels: int) -> Seq<u8> {
        let stated = match self.objects.layout_in_force() {
            Some(layout) => if self.objects_in(presentation) && layout.element_count == channels {
                layout.speakers
            } else {
                roles_of(d.channel_labels@, channels, self.objects_in(presentation))
            },
            None => roles_of(d.channel_labels@, channels, self.objects_in(presentation)),
        };
        Seq::new(
            MAX_CHANNELS as nat,
            |i: int|
                if i < channels {
                    stated[i]
                } else {
                    SPEAKER_UNKNOWN
                },
        )
    }

    /// The block of a decoded presentation once its metadata stand, and what it leaves behind.
    /// The layout serial moves exactly when the channel roles do.
    pub open spec fn finished(
        self,
        d: DecodedUnit,
        presentation: int,
        unit: UnitView,
        metadata: Option<MetadataView>,
    ) -> (EngineView, BlockView) {
        let frames = frames_of(d);
        let channels = channels_of(d);
        let roles = RolesView {
            sample_rate: d.sampling_frequency,
            presentation,
            channels,
            speakers: self.speakers(d, presentation, channels),
        };
        let moved = self.roles != Some(roles);
        let layout_serial = if moved {
            self.layout_serial.wrapping_add(1)
        } else {
            self.layout_serial
        };
        let updates: int = match metadata {
            Some(m) => m.updates.len() as int,
            None => 0,
        };
        let access_unit_frames: int = match self.desc {
            Some(desc) => desc.access_unit_frames as int,
            None => d.sample_length as int,
        };
        (
            EngineView {
                roles: Some(roles),
                layout_serial,
                pending_flags: 0,
                sample_position: self.sample_position + frames,
                stats: Stats {
                    metadata_updates: (self.stats.metadata_updates + updates) as u64,
                    blocks_output: (self.stats.blocks_output + 1) as u64,
                    frames_output: (self.stats.frames_output + frames) as u64,
                    ..self.stats
                },
                ..self
            },
            BlockView {
                sample_rate: d.sampling_frequency,
                frame_count: frames,
                channel_count: channels,
                presentation,
                flags: self.pending_flags | flag_if(moved, BLOCK_LAYOUT_CHANGED) | flag_if(
                    metadata is Some,
                    BLOCK_HAS_METADATA,
                ) | flag_if(updates > 0, BLOCK_METADATA_UPDATED) | flag_if(
                    self.framer.estimated,
                    BLOCK_INPUT_OFFSET_ESTIMATED,
                ),
                access_unit_frames,
                pts: unit.pts,
                pts_au_index: unit.pts_au_index,
                layout_serial,
                sample_position: self.sample_position,
                input_access_unit: unit.info.ordinal as int,
                input_frame_offset: unit.info.ordinal * access_unit_frames,
                speakers: roles.speakers,
                metadata,
            },
        )
    }

    /// The block of a decoded presentation, and what it leaves behind. Its metadata are those
    /// that start in it, after its own payloads were taken in.
    #[verifier::opaque]
    pub open spec fn emitted(
        self,
        d: DecodedUnit,
        presentation: int,
        unit: UnitView,
        oamd: Seq<OamdArrival>,
    ) -> (EngineView, BlockView) {
        let v = if presentation == OBJECT_PRESENTATION {
            self.with_payloads(oamd, channels_of(d))
        } else {
            self
        };
        let (objects, metadata) = v.objects.begin_block(v.sample_position, frames_of(d));
        EngineView { objects, ..v }.finished(d, presentation, unit, metadata)
    }

    /// The current access unit is done with.
    pub open spec fn released(self) -> EngineView {
        EngineView { unit: None, probing: None, ..self }
    }

    /// On from an access unit that could not be decoded.
    pub open spec fn after_failure(self, text: Seq<char>) -> (EngineView, ActionView) {
        self.released().failed(text).advanced()
    }

    /// On from a decoded access unit: its first decoded presentation goes out as a block, unless
    /// it repeats the previous access unit at a splice.
    pub open spec fn after_decode(
        self,
        slots: Seq<Option<DecodedUnit>>,
        oamd: Seq<OamdArrival>,
    ) -> (EngineView, ActionView) {
        match first_decoded(slots, 0) {
            None => self.after_failure("decoder produced no presentation"@),
            Some(i) => {
                let d = slots[i]->0;
                let v = EngineView {
                    waiting_for_sync: false,
                    stats: Stats {
                        access_units_decoded: (self.stats.access_units_decoded + 1) as u64,
                        ..self.stats
                    },
                    ..self.released()
                };
                if d.is_duplicate {
                    EngineView {
                        stats: Stats {
                            duplicate_access_units: (v.stats.duplicate_access_units + 1) as u64,
                            ..v.stats
                        },
                        ..v
                    }.advanced()
                } else {
                    let (w, block) = v.emitted(d, i, self.unit->0, oamd);
                    (w, ActionView::Output(block))
                }
            },
        }
    }

    /// What every operation keeps: the parts are valid and agree on what was pushed and damaged;
    /// every decoded access unit went out as a block or was a duplicate, and the output position is
    /// the frames that went out; every count of access units stays within those the framer handed
    /// out, one of which may still be on its way.
    pub open spec fn valid(self) -> bool {
        &&& self.framer.valid()
        &&& self.pushes.valid()
        &&& self.objects.valid()
        &&& self.counts()
    }

    /// The part of `valid` that relates the parts to each other.
    pub open spec fn counts(self) -> bool {
        let handed = self.framer.ordinal - (if self.unit is Some {
            1int
        } else {
            0
        });
        let settled = self.framer.consumed - (if self.unit is Some {
            self.unit->0.data.len() as int
        } else {
            0
        });
        &&& 0 <= self.framer.ordinal <= 4 * self.framer.consumed
        &&& self.framer.consumed + self.framer.pending.len() <= MAX_STREAM_BYTES
        &&& self.framer.pending.len() <= MAX_PENDING_INPUT
        &&& self.pushes.pushed == self.framer.consumed + self.framer.pending.len()
        &&& self.pushes.within(self.framer.consumed)
        &&& self.stats.bytes_pushed == self.pushes.pushed
        &&& self.stats.bytes_pending == 0
        &&& self.stats.sync_errors == self.framer.sync_errors
        &&& self.stats.access_units_decoded <= handed
        &&& self.stats.access_units_skipped <= handed
        &&& self.stats.duplicate_access_units <= handed
        &&& self.stats.decode_errors <= handed
        &&& self.stats.blocks_output <= handed
        &&& self.stats.access_units_decoded == self.stats.blocks_output
            + self.stats.duplicate_access_units
        &&& self.stats.frames_output == self.sample_position
        &&& self.stats.metadata_updates <= 16 * self.stats.blocks_output
        &&& self.stats.oamd_payloads + self.stats.oamd_errors <= settled
        &&& 0 <= self.sample_position <= 160 * self.stats.blocks_output
        &&& 0 <= self.resolved < MAX_PRESENTATIONS
        &&& self.required.len() == MAX_PRESENTATIONS
        &&& self.desc matches Some(d) ==> d.access_unit_frames <= 160
        &&& self.unit matches Some(u) ==> u.info.ordinal < self.framer.ordinal && u.data.len() >= 8
        &&& self.probing is Some ==> self.unit is Some
        &&& self.pending_flags == 0 || self.pending_flags == BLOCK_DISCONTINUITY
        &&& self.roles matches Some(r) ==> r.speakers.len() == MAX_CHANNELS
    }
}

} // verus!
