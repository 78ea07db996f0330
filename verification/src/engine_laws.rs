//! What the engine promises over several operations: positions on the output and the input
//! timeline, identity of the layout, recovery, and counts.

use crate::engine::lemma_emitted_counts;
use crate::engine_view::{first_decoded, EngineView, RolesView};
use crate::events::{DecodedUnit, OamdArrival, UnitView};
use crate::framer::NextView;
use crate::framer_laws::{info_of, law_step, lemma_errors_grow};
use crate::objects::MetadataView;
use crate::pushes::{lemma_attributed, MAX_PENDING_INPUT};
use crate::stream::signature;
use crate::types::{
    Stats, BLOCK_DISCONTINUITY, BLOCK_HAS_METADATA, BLOCK_INPUT_OFFSET_ESTIMATED,
    BLOCK_LAYOUT_CHANGED, BLOCK_METADATA_UPDATED, ERR_BUFFER_FULL, OK,
};
use vstd::prelude::*;

verus! {

/// A reset keeps what identifies the stream: its description and configuration, the selection,
/// the layout serial with the roles it stands for, and the substream count. Positions and counts
/// start again, and the next block is flagged as a discontinuity.
pub proof fn law_reset_keeps_identity(v: EngineView)
    requires
        v.pending_flags <= 1,
    ensures
        ({
            let w = v.after_reset();
            &&& w.selection == v.selection
            &&& w.desc == v.desc
            &&& w.sync_signature == v.sync_signature
            &&& w.resolved == v.resolved
            &&& w.required == v.required
            &&& w.layout_serial == v.layout_serial
            &&& w.roles == v.roles
            &&& w.framer.substreams == v.framer.substreams
            &&& w.framer.consumed == 0
            &&& w.framer.ordinal == 0
            &&& w.framer.pending.len() == 0
            &&& w.sample_position == 0
            &&& w.stats == Stats::zero()
            &&& w.last_error.len() == 0
            &&& w.waiting_for_sync
            &&& w.pending_flags == BLOCK_DISCONTINUITY
            &&& !w.poisoned
        }),
{
    lemma_discontinuity();
}

pub proof fn lemma_discontinuity()
    ensures
        0u32 | 1u32 == 1u32,
        1u32 | 1u32 == 1u32,
{
    assert(0u32 | 1u32 == 1u32 && 1u32 | 1u32 == 1u32) by (bit_vector);
}

proof fn lemma_flag_bits(p: u32, a: u32, b: u32, c: u32, d: u32)
    requires
        p == 0 || p == 1,
        a == 0 || a == 2,
        b == 0 || b == 4,
        c == 0 || c == 8,
        d == 0 || d == 16,
    ensures
        (p | a | b | c | d) & 1 == p,
        (p | a | b | c | d) & 2 == a,
        (p | a | b | c | d) & 4 == b,
        (p | a | b | c | d) & 8 == c,
        (p | a | b | c | d) & 16 == d,
{
    assert((p | a | b | c | d) & 1 == p && (p | a | b | c | d) & 2 == a && (p | a | b | c | d) & 4
        == b && (p | a | b | c | d) & 8 == c && (p | a | b | c | d) & 16 == d) by (bit_vector)
        requires
            p == 0 || p == 1,
            a == 0 || a == 2,
            b == 0 || b == 4,
            c == 0 || c == 8,
            d == 0 || d == 16,
    ;
}

/// A block's flags say exactly: that decoding restarted before it, that its channel roles are
/// not those of the block before, that it has metadata, that updates start in it, and that its
/// place on the input timeline is estimated.
pub proof fn law_block_flags(
    v: EngineView,
    d: DecodedUnit,
    presentation: int,
    unit: UnitView,
    metadata: Option<MetadataView>,
)
    requires
        v.pending_flags == 0 || v.pending_flags == BLOCK_DISCONTINUITY,
    ensures
        ({
            let (w, block) = v.finished(d, presentation, unit, metadata);
            let f = block.flags;
            &&& (f & BLOCK_DISCONTINUITY != 0) == (v.pending_flags == BLOCK_DISCONTINUITY)
            &&& (f & BLOCK_LAYOUT_CHANGED != 0) == (v.roles != w.roles)
            &&& (f & BLOCK_HAS_METADATA != 0) == (metadata is Some)
            &&& (f & BLOCK_METADATA_UPDATED != 0) == (metadata is Some
                && metadata->0.updates.len() > 0)
            &&& (f & BLOCK_INPUT_OFFSET_ESTIMATED != 0) == v.framer.estimated
            &&& w.pending_flags == 0
        }),
{
    let (w, block) = v.finished(d, presentation, unit, metadata);
    let moved = v.roles != w.roles;
    let updated = metadata is Some && metadata->0.updates.len() > 0;
    lemma_flag_bits(
        v.pending_flags,
        if moved {
            2
        } else {
            0
        },
        if metadata is Some {
            4
        } else {
            0
        },
        if updated {
            8
        } else {
            0
        },
        if v.framer.estimated {
            16
        } else {
            0
        },
    );
}

/// The layout serial changes from one block to the next exactly when the channel roles do, and
/// is the one the engine goes on to report.
pub proof fn law_layout_serial(
    v: EngineView,
    d: DecodedUnit,
    presentation: int,
    unit: UnitView,
    metadata: Option<MetadataView>,
)
    ensures
        ({
            let (w, block) = v.finished(d, presentation, unit, metadata);
            &&& block.layout_serial == w.layout_serial
            &&& block.layout_serial == v.layout_serial <==> w.roles == v.roles
            &&& w.roles == Some(
                RolesView {
                    sample_rate: block.sample_rate,
                    presentation: block.presentation,
                    channels: block.channel_count,
                    speakers: block.speakers,
                },
            )
        }),
{
}

/// Blocks follow each other on the output timeline without gap or overlap; a block's place on
/// the input timeline counts whole access units from the first byte pushed.
pub proof fn law_timeline(
    v: EngineView,
    d: DecodedUnit,
    presentation: int,
    unit: UnitView,
    metadata: Option<MetadataView>,
)
    ensures
        ({
            let (w, block) = v.finished(d, presentation, unit, metadata);
            &&& block.sample_position == v.sample_position
            &&& w.sample_position == block.sample_position + block.frame_count
            &&& block.input_access_unit == unit.info.ordinal
            &&& block.input_frame_offset == block.input_access_unit * block.access_unit_frames
            &&& block.pts == unit.pts
            &&& block.pts_au_index == unit.pts_au_index
        }),
{
}

/// Going on to the next access unit moves neither the output position nor the layout serial nor
/// the stream description.
pub proof fn law_advancing_keeps_position(v: EngineView)
    ensures
        v.advanced().0.sample_position == v.sample_position,
        v.advanced().0.layout_serial == v.layout_serial,
        v.advanced().0.roles == v.roles,
        v.advanced().0.desc == v.desc,
        v.advanced().0.selection == v.selection,
    decreases v.framer.pending.len(),
{
    let (w, action) = v.stepped();
    if action is None && w.framer.pending.len() < v.framer.pending.len() {
        law_advancing_keeps_position(w);
    }
}

/// While decoding waits for a major sync, nothing else is probed or decoded.
pub proof fn law_waits_for_major_sync(v: EngineView)
    requires
        v.waiting_for_sync,
    ensures
        v.advanced().1 is Probe || v.advanced().1 is Decode
            ==> v.advanced().0.unit->0.info.major_sync,
    decreases v.framer.pending.len(),
{
    let (w, action) = v.stepped();
    if action is None && w.framer.pending.len() < v.framer.pending.len() {
        law_waits_for_major_sync(w);
    }
}

/// Once another presentation is selected, the next major sync is probed whatever it states, so
/// that the selection takes effect there; and the block decoded from it is flagged as a
/// discontinuity.
pub proof fn law_selection_takes_effect(v: EngineView, selection: i32, data: Seq<u8>)
    requires
        signature(data) is Some,
        v.pending_flags <= 1,
    ensures
        v.with_selection(selection).needs_probe(data),
        v.with_selection(selection).waiting_for_sync,
        v.with_selection(selection).pending_flags == BLOCK_DISCONTINUITY,
{
    lemma_discontinuity();
    assert(signature(data)->0.len() >= 12);
}

/// A major sync is probed exactly if its signature is not the one decoding is set up for.
pub proof fn law_probes_on_change(v: EngineView, data: Seq<u8>)
    requires
        v.desc is Some,
        signature(data) is Some,
    ensures
        v.needs_probe(data) <==> signature(data) != Some(v.sync_signature),
{
}

/// An access unit that could not be decoded is counted and reported, and decoding restarts at
/// the next major sync with a discontinuity; no metadata is attached until the next update.
pub proof fn law_failure_recovers(v: EngineView, text: Seq<char>)
    requires
        v.pending_flags <= 1,
        v.stats.decode_errors < u64::MAX,
    ensures
        ({
            let w = v.failed(text);
            &&& w.stats.decode_errors == v.stats.decode_errors + 1
            &&& w.last_error.len() == text.len()
            &&& w.waiting_for_sync
            &&& w.restart_codec
            &&& w.pending_flags == BLOCK_DISCONTINUITY
            &&& w.objects.layout_in_force() is None
            &&& w.desc == v.desc
            &&& w.layout_serial == v.layout_serial
        }),
{
    lemma_discontinuity();
}

/// Input is refused exactly when it would take the bytes pending beyond the limit, and a refused
/// push changes nothing.
pub proof fn law_push_refused(v: EngineView, data: Seq<u8>, pts: i64)
    ensures
        v.after_push(data, pts).1 == ERR_BUFFER_FULL <==> data.len() > 0 && v.framer.pending.len()
            + data.len() > MAX_PENDING_INPUT,
        v.after_push(data, pts).1 != ERR_BUFFER_FULL ==> v.after_push(data, pts).1 == OK,
        v.after_push(data, pts).1 == ERR_BUFFER_FULL ==> v.after_push(data, pts).0 == v,
        data.len() == 0 ==> v.after_push(data, pts) == (v, OK),
{
}

/// Access units that are done with: skipped, decoded or given up.
pub open spec fn settled(v: EngineView) -> int {
    v.stats.access_units_skipped + v.stats.access_units_decoded + v.stats.decode_errors
}

/// The balance between access units framed, and those settled or on their way. Constant: every
/// access unit is settled in exactly one way.
pub open spec fn balance(v: EngineView) -> int {
    v.framer.framed_aus - settled(v) - (if v.unit is Some {
        1int
    } else {
        0
    })
}

/// Taking the next access unit keeps an engine valid and the balance.
pub proof fn lemma_step(v: EngineView)
    requires
        v.valid(),
        v.unit is None,
        v.probing is None,
    ensures
        v.stepped().0.valid(),
        balance(v.stepped().0) == balance(v),
        v.stepped().1 is None ==> {
            &&& v.stepped().0.unit is None
            &&& v.stepped().0.probing is None
            &&& v.stepped().0.framer.pending.len() < v.framer.pending.len()
        },
{
    law_step(v.framer);
    lemma_errors_grow(v.framer);
    lemma_discontinuity();
    let (f, r) = v.framer.next();
    let w = v.framed(f);
    assert(w.objects.valid());
    assert(w.pushes == v.pushes);
    match r {
        NextView::NeedData => {},
        NextView::Skipped(info) => {
            lemma_attributed(w.pushes, info.offset as int);
        },
        NextView::Au(info, data) => {
            lemma_attributed(w.pushes, info.offset as int);
        },
    }
}

/// What taking the next access unit rests on: damage is only ever added, the access unit lies
/// within what was pushed and is long enough, and the engine's counts stay in proportion.
pub open spec fn steps(v: EngineView) -> bool {
    let (f, r) = v.framer.next();
    let (w, action) = v.stepped();
    &&& v.framer.sync_errors <= f.sync_errors
    &&& v.framer.sync_errors == v.stats.sync_errors
    &&& v.stats.access_units_skipped < u64::MAX
    &&& v.pending_flags <= 1
    &&& !(r is NeedData) ==> {
        let offset = info_of(r).offset as int;
        &&& offset < v.pushes.pushed
        &&& v.pushes.pushed - offset <= MAX_PENDING_INPUT
        &&& v.pushes.within(offset)
    }
    &&& r matches NextView::Au(_, data) ==> data.len() >= 8
    &&& w.counts()
    &&& match action {
        Some(a) => w.awaits(a),
        None => {
            &&& w.unit is None
            &&& w.probing is None
            &&& w.framer.pending.len() < v.framer.pending.len()
        },
    }
}

pub proof fn lemma_steps(v: EngineView)
    requires
        v.valid(),
        v.unit is None,
        v.probing is None,
    ensures
        steps(v),
{
    lemma_step(v);
    law_step(v.framer);
    lemma_errors_grow(v.framer);
}

/// Going on to the next access unit keeps an engine valid. Every access unit passed over on the
/// way is settled in exactly one way.
pub proof fn law_advancing_settles(v: EngineView)
    requires
        v.valid(),
        v.unit is None,
        v.probing is None,
    ensures
        v.advanced().0.valid(),
        balance(v.advanced().0) == balance(v),
    decreases v.framer.pending.len(),
{
    lemma_step(v);
    let (w, action) = v.stepped();
    if action is None {
        law_advancing_settles(w);
    }
}

/// An access unit that could not be decoded is settled in exactly one way.
pub proof fn law_failure_settles(v: EngineView, text: Seq<char>)
    requires
        v.valid(),
        v.unit is Some,
    ensures
        v.after_failure(text).0.valid(),
        balance(v.after_failure(text).0) == balance(v),
{
    lemma_discontinuity();
    law_advancing_settles(v.released().failed(text));
}

/// A decoded access unit is settled in exactly one way.
pub proof fn law_decode_settles(
    v: EngineView,
    slots: Seq<Option<DecodedUnit>>,
    oamd: Seq<OamdArrival>,
)
    requires
        v.valid(),
        v.unit is Some,
        oamd.len() <= v.unit->0.data.len(),
    ensures
        balance(v.after_decode(slots, oamd).0) == balance(v),
{
    match first_decoded(slots, 0) {
        None => {
            law_failure_settles(v, "decoder produced no presentation"@);
        },
        Some(i) => {
            let d = slots[i]->0;
            let w = EngineView {
                waiting_for_sync: false,
                stats: Stats {
                    access_units_decoded: (v.stats.access_units_decoded + 1) as u64,
                    ..v.stats
                },
                ..v.released()
            };
            if d.is_duplicate {
                let x = EngineView {
                    stats: Stats {
                        duplicate_access_units: (w.stats.duplicate_access_units + 1) as u64,
                        ..w.stats
                    },
                    ..w
                };
                law_advancing_settles(x);
            } else {
                lemma_emitted_counts(w, d, i, v.unit->0, oamd);
            }
        },
    }
}

/// Going on from a probe settles no access unit twice.
pub proof fn law_probe_settles(v: EngineView)
    requires
        v.valid(),
        v.unit is Some,
    ensures
        v.after_probe().0.valid(),
        balance(v.after_probe().0) == balance(v),
{
    let (w, action) = v.decoding(v.unit->0);
    if action is None {
        law_advancing_settles(w);
    }
}

} // verus!
