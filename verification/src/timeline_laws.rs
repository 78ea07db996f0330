//! What the engine promises over whole runs: where every block sits on the output and on the
//! input timeline.

use crate::engine::{lemma_emitted_counts, lemma_payload_counts};
use crate::engine_laws::{law_block_flags, lemma_discontinuity, lemma_step};
use crate::engine_view::{
    channels_of, first_decoded, frames_of, EngineView, OBJECT_PRESENTATION,
};
use crate::events::{ActionView, BlockView, DecodedUnit, OamdArrival, UnitView};
use crate::framer::FramerView;
use crate::framer_laws::law_step;
use crate::object_laws::{
    law_begin_block_keeps_valid, law_begin_block_on_time, law_ingest_keeps_valid,
    law_ingest_on_time, on_time,
};
use crate::pushes::lemma_recorded;
use crate::stream::{law_resolved_range, StreamDesc};
use crate::types::{
    Stats, BLOCK_DISCONTINUITY, BLOCK_INPUT_OFFSET_ESTIMATED, MAX_PRESENTATIONS,
};
use vstd::prelude::*;

verus! {

/// One operation on an engine, with what the caller brings to it.
pub enum EngineOp {
    Push(Seq<u8>, i64),
    Select(i32),
    Pull,
    /// The access unit at hand was probed: the stream it describes.
    Learnt(StreamDesc),
    /// It could not be probed, for this reason.
    NotLearnt(Seq<char>),
    /// The access unit at hand was decoded, with its metadata payloads.
    Decoded(Seq<Option<DecodedUnit>>, Seq<OamdArrival>),
    /// It could not be decoded, for this reason.
    Undecodable(Seq<char>),
    /// The parser and decoder were told what they had to be.
    TakeOrders,
}

/// Whether the engine takes the operation.
pub open spec fn allowed(v: EngineView, op: EngineOp) -> bool {
    match op {
        EngineOp::Push(data, _) => data.len() == 0 || v.full(data.len() as int) || v.has_room(
            data.len() as int,
        ),
        EngineOp::Select(_) => true,
        EngineOp::Pull => v.unit is None && v.probing is None,
        EngineOp::Learnt(desc) => v.unit is Some && v.probing is Some && desc.access_unit_frames
            <= 160,
        EngineOp::NotLearnt(_) => v.unit is Some && v.probing is Some,
        EngineOp::Decoded(slots, oamd) => {
            &&& v.unit is Some
            &&& v.probing is None
            &&& slots.len() <= MAX_PRESENTATIONS
            &&& oamd.len() <= v.unit->0.data.len()
        },
        EngineOp::Undecodable(_) => v.unit is Some && v.probing is None,
        EngineOp::TakeOrders => true,
    }
}

/// Where the operation leads, and what the engine asks for then, if anything.
pub open spec fn applied(v: EngineView, op: EngineOp) -> (EngineView, Option<ActionView>) {
    match op {
        EngineOp::Push(data, pts) => (v.after_push(data, pts).0, None),
        EngineOp::Select(selection) => (v.with_selection(selection), None),
        EngineOp::Pull => (v.advanced().0, Some(v.advanced().1)),
        EngineOp::Learnt(desc) => {
            let (w, a) = v.configured(desc).after_probe();
            (w, Some(a))
        },
        EngineOp::NotLearnt(text) => {
            let (w, a) = v.unconfigured(text).after_probe();
            (w, Some(a))
        },
        EngineOp::Decoded(slots, oamd) => {
            let (w, a) = v.after_decode(slots, oamd);
            (w, Some(a))
        },
        EngineOp::Undecodable(text) => {
            let (w, a) = v.after_failure(text);
            (w, Some(a))
        },
        EngineOp::TakeOrders => (
            EngineView { restart_codec: false, set_required: false, ..v },
            None,
        ),
    }
}

/// A block that came out of a run, and how many access units the framer had handed out before
/// the one it was decoded from.
pub struct Outcome {
    pub block: BlockView,
    pub units_before: int,
}

/// Whether the engine takes every operation of a run.
pub open spec fn runs(start: EngineView, ops: Seq<EngineOp>) -> bool
    decreases ops.len(),
{
    ops.len() == 0 || (runs(start, ops.drop_last()) && allowed(
        ran(start, ops.drop_last()).0,
        ops.last(),
    ))
}

/// Where a run leads, and the blocks that came out of it.
pub open spec fn ran(start: EngineView, ops: Seq<EngineOp>) -> (EngineView, Seq<Outcome>)
    decreases ops.len(),
{
    if ops.len() == 0 {
        (start, Seq::empty())
    } else {
        let (v, had) = ran(start, ops.drop_last());
        let (w, action) = applied(v, ops.last());
        (
            w,
            match action {
                Some(ActionView::Output(block)) => had.push(
                    Outcome {
                        block,
                        units_before: v.framer.framed_aus - start.framer.framed_aus - 1,
                    },
                ),
                _ => had,
            },
        )
    }
}

/// Whether the framer's count of access units is exact unless flagged, and every byte consumed is
/// in an access unit or skipped.
pub open spec fn counted(start: FramerView, f: FramerView) -> bool {
    &&& start.framed_aus <= f.framed_aus
    &&& !f.estimated ==> f.ordinal == f.framed_aus - start.framed_aus
    &&& f.consumed == f.skipped_bytes + (f.framed_bytes - start.framed_bytes)
}

/// The access unit at hand, if any, is the last one the framer handed out.
pub open spec fn latest(v: EngineView) -> bool {
    v.unit matches Some(u) ==> u.info.ordinal + 1 == v.framer.ordinal
}

/// What holds of the blocks that came out of a run from a reset engine.
pub open spec fn on_timeline(start: EngineView, v: EngineView, out: Seq<Outcome>) -> bool {
    let at_hand: int = if v.unit is Some {
        1
    } else {
        0
    };
    // On the output timeline blocks follow each other without gap or overlap from zero on.
    &&& out.len() == v.stats.blocks_output
    &&& out.len() == 0 ==> v.sample_position == 0
    &&& out.len() > 0 ==> out[0].block.sample_position == 0 && v.sample_position
        == out.last().block.sample_position + out.last().block.frame_count
    &&& forall|i: int|
        0 < i < out.len() ==> (#[trigger] out[i]).block.sample_position == out[i
            - 1].block.sample_position + out[i - 1].block.frame_count
    // On the input timeline they come in order, each from an access unit of its own.
    &&& forall|i: int, j: int|
        0 <= i < j < out.len() ==> (#[trigger] out[i]).block.input_access_unit < (
        #[trigger] out[j]).block.input_access_unit
    &&& forall|i: int|
        0 <= i < out.len() ==> (#[trigger] out[i]).block.input_access_unit < v.framer.ordinal
            - at_hand
    // A block's place is a whole number of access units, and unless it is flagged as estimated
    // exactly those that came before it.
    &&& forall|i: int|
        0 <= i < out.len() ==> (#[trigger] out[i]).block.input_frame_offset
            == out[i].block.input_access_unit * out[i].block.access_unit_frames
    &&& forall|i: int|
        0 <= i < out.len() && (#[trigger] out[i]).block.flags & BLOCK_INPUT_OFFSET_ESTIMATED == 0
            ==> out[i].block.input_access_unit == out[i].units_before
    // No metadata update is late: each goes out at exactly the frame where it starts.
    &&& on_time(v.objects, v.sample_position)
    // The count itself stays exact unless flagged.
    &&& counted(start.framer, v.framer)
    &&& latest(v)
}

/// Going on keeps the engine valid and its counts exact.
proof fn lemma_advance(start: FramerView, v: EngineView)
    requires
        v.valid(),
        v.unit is None,
        v.probing is None,
        counted(start, v.framer),
        on_time(v.objects, v.sample_position),
    ensures
        ({
            let (w, a) = v.advanced();
            &&& w.valid()
            &&& w.awaits(a)
            &&& !(a is Output)
            &&& counted(start, w.framer)
            &&& latest(w)
            &&& w.framer.ordinal >= v.framer.ordinal + (if w.unit is Some {
                1int
            } else {
                0
            })
            &&& w.sample_position == v.sample_position
            &&& w.stats.blocks_output == v.stats.blocks_output
            &&& on_time(w.objects, w.sample_position)
        }),
    decreases v.framer.pending.len(),
{
    lemma_step(v);
    law_step(v.framer);
    let (w, action) = v.stepped();
    if action is None {
        lemma_advance(start, w);
    }
}

proof fn lemma_payloads_valid(v: EngineView, oamd: Seq<OamdArrival>, channels: int)
    requires
        v.objects.valid(),
        on_time(v.objects, v.sample_position),
    ensures
        v.with_payloads(oamd, channels).objects.valid(),
        v.with_payloads(oamd, channels).sample_position == v.sample_position,
        on_time(v.with_payloads(oamd, channels).objects, v.sample_position),
    decreases oamd.len(),
{
    if oamd.len() > 0 {
        let before = v.with_payloads(oamd.drop_last(), channels);
        lemma_payloads_valid(v, oamd.drop_last(), channels);
        let arrival = oamd.last();
        if let Ok(payload) = arrival.payload {
            law_ingest_keeps_valid(
                before.objects,
                payload,
                before.sample_position + arrival.offset,
                channels,
            );
            law_ingest_on_time(
                before.objects,
                payload,
                before.sample_position + arrival.offset,
                channels,
                v.sample_position,
            );
        }
    }
}

/// What a block says, and that its objects stay valid.
proof fn lemma_emitted(v: EngineView, d: DecodedUnit, presentation: int, oamd: Seq<OamdArrival>)
    requires
        v.objects.valid(),
        on_time(v.objects, v.sample_position),
        v.unit is None,
        v.pending_flags == 0 || v.pending_flags == BLOCK_DISCONTINUITY,
        v.stats.oamd_payloads + v.stats.oamd_errors + oamd.len() < u64::MAX,
    ensures
        forall|unit: UnitView|
            ({
                let (w, block) = #[trigger] v.emitted(d, presentation, unit, oamd);
                &&& w.objects.valid()
                &&& on_time(w.objects, w.sample_position)
                &&& w.sample_position == v.sample_position + block.frame_count
                &&& block.sample_position == v.sample_position
                &&& block.input_access_unit == unit.info.ordinal
                &&& block.input_frame_offset == block.input_access_unit * block.access_unit_frames
                &&& block.flags & BLOCK_INPUT_OFFSET_ESTIMATED == 0 ==> !v.framer.estimated
            }),
{
    reveal(EngineView::emitted);
    let u = if presentation == OBJECT_PRESENTATION {
        v.with_payloads(oamd, channels_of(d))
    } else {
        v
    };
    lemma_payloads_valid(v, oamd, channels_of(d));
    lemma_payload_counts(v, oamd, channels_of(d));
    law_begin_block_keeps_valid(u.objects, u.sample_position, frames_of(d));
    law_begin_block_on_time(u.objects, u.sample_position, frames_of(d));
    let (objects, metadata) = u.objects.begin_block(u.sample_position, frames_of(d));
    let w = EngineView { objects, ..u };
    assert forall|unit: UnitView|
        ({
            let (x, block) = #[trigger] v.emitted(d, presentation, unit, oamd);
            &&& x.objects.valid()
            &&& on_time(x.objects, x.sample_position)
            &&& x.sample_position == v.sample_position + block.frame_count
            &&& block.sample_position == v.sample_position
            &&& block.input_access_unit == unit.info.ordinal
            &&& block.input_frame_offset == block.input_access_unit * block.access_unit_frames
            &&& block.flags & BLOCK_INPUT_OFFSET_ESTIMATED == 0 ==> !v.framer.estimated
        }) by {
        law_block_flags(w, d, presentation, unit, metadata);
    }
}

/// Every operation keeps the engine valid, its counts exact, and the blocks on the timelines.
pub proof fn lemma_applied(start: EngineView, v: EngineView, had: Seq<Outcome>, op: EngineOp)
    requires
        v.valid(),
        on_timeline(start, v, had),
        allowed(v, op),
    ensures
        ({
            let (w, action) = applied(v, op);
            let out = match action {
                Some(ActionView::Output(block)) => had.push(
                    Outcome {
                        block,
                        units_before: v.framer.framed_aus - start.framer.framed_aus - 1,
                    },
                ),
                _ => had,
            };
            &&& w.valid()
            &&& on_timeline(start, w, out)
        }),
{
    lemma_discontinuity();
    match op {
        EngineOp::Push(data, pts) => {
            if data.len() > 0 && !v.full(data.len() as int) {
                lemma_recorded(v.pushes, data.len() as int, pts, v.framer.consumed);
                lemma_push_valid(v.framer, data);
            }
        },
        EngineOp::Select(selection) => {},
        EngineOp::Pull => {
            lemma_advance(start.framer, v);
        },
        EngineOp::Learnt(desc) => {
            law_resolved_range(v.selection, desc.map.masks@);
            let c = v.configured(desc);
            let (w, action) = c.decoding(c.unit->0);
            if action is None {
                lemma_advance(start.framer, w);
            }
        },
        EngineOp::NotLearnt(text) => {
            let c = v.unconfigured(text);
            let (w, action) = c.decoding(c.unit->0);
            if action is None {
                lemma_advance(start.framer, w);
            }
        },
        EngineOp::Decoded(slots, oamd) => {
            lemma_decoded(start, v, had, slots, oamd);
        },
        EngineOp::Undecodable(text) => {
            lemma_advance(start.framer, v.released().failed(text));
        },
        EngineOp::TakeOrders => {},
    }
}

proof fn lemma_push_valid(f: FramerView, data: Seq<u8>)
    requires
        f.valid(),
        f.has_room(data.len() as int),
    ensures
        f.after_push(data).valid(),
{
}

proof fn lemma_decoded(
    start: EngineView,
    v: EngineView,
    had: Seq<Outcome>,
    slots: Seq<Option<DecodedUnit>>,
    oamd: Seq<OamdArrival>,
)
    requires
        v.valid(),
        on_timeline(start, v, had),
        allowed(v, EngineOp::Decoded(slots, oamd)),
    ensures
        ({
            let (w, action) = v.after_decode(slots, oamd);
            let out = match action {
                ActionView::Output(block) => had.push(
                    Outcome {
                        block,
                        units_before: v.framer.framed_aus - start.framer.framed_aus - 1,
                    },
                ),
                _ => had,
            };
            &&& w.valid()
            &&& on_timeline(start, w, out)
        }),
{
    lemma_discontinuity();
    match first_decoded(slots, 0) {
        None => {
            lemma_advance(
                start.framer,
                v.released().failed("decoder produced no presentation"@),
            );
        },
        Some(i) => {
            let d = slots[i]->0;
            let w = EngineView {
                waiting_for_sync: false,
                stats: Stats {
                    access_units_decoded: (v.stats.access_units_decoded + 1) as u64,
                    ..v.stats
                },
                ..v.released()
            };
            if d.is_duplicate {
                lemma_advance(
                    start.framer,
                    EngineView {
                        stats: Stats {
                            duplicate_access_units: (w.stats.duplicate_access_units + 1) as u64,
                            ..w.stats
                        },
                        ..w
                    },
                );
            } else {
                lemma_emitted_counts(w, d, i, v.unit->0, oamd);
                lemma_emitted(w, d, i, oamd);
                let (x, block) = w.emitted(d, i, v.unit->0, oamd);
                let outcome = Outcome {
                    block,
                    units_before: v.framer.framed_aus - start.framer.framed_aus - 1,
                };
                let out = had.push(outcome);
                assert forall|a: int, b: int| 0 <= a < b < out.len() implies (
                #[trigger] out[a]).block.input_access_unit < (
                #[trigger] out[b]).block.input_access_unit by {
                    assert(out[a] == had[a]);
                    if b < had.len() {
                        assert(out[b] == had[b]);
                    }
                }
                assert forall|a: int| 0 < a < out.len() implies (
                #[trigger] out[a]).block.sample_position == out[a - 1].block.sample_position
                    + out[a - 1].block.frame_count by {
                    assert(out[a - 1] == had[a - 1]);
                    if a < had.len() {
                        assert(out[a] == had[a]);
                    } else {
                        assert(had.last() == had[a - 1]);
                    }
                }
                assert forall|a: int| 0 <= a < out.len() implies (
                #[trigger] out[a]).block.input_frame_offset == out[a].block.input_access_unit
                    * out[a].block.access_unit_frames && out[a].block.input_access_unit
                    < x.framer.ordinal && (out[a].block.flags & BLOCK_INPUT_OFFSET_ESTIMATED == 0
                    ==> out[a].block.input_access_unit == out[a].units_before) by {
                    if a < had.len() {
                        assert(out[a] == had[a]);
                    }
                }
                if had.len() > 0 {
                    assert(out[0] == had[0]);
                }
            }
        },
    }
}

/// In a block of an engine on whose timeline no update is late, every update that goes out starts
/// at exactly its frame of the output timeline.
pub proof fn law_updates_on_time(
    v: EngineView,
    d: DecodedUnit,
    presentation: int,
    unit: UnitView,
    oamd: Seq<OamdArrival>,
)
    requires
        v.objects.valid(),
        on_time(v.objects, v.sample_position),
    ensures
        ({
            let ready = if presentation == OBJECT_PRESENTATION {
                v.with_payloads(oamd, channels_of(d))
            } else {
                v
            };
            let (w, block) = v.emitted(d, presentation, unit, oamd);
            &&& on_time(w.objects, w.sample_position)
            &&& block.metadata matches Some(m) ==> forall|k: int|
                0 <= k < m.updates.len() ==> block.sample_position + (
                #[trigger] m.updates[k]).frame_offset == ready.objects.pending[k].due
        }),
{
    reveal(EngineView::emitted);
    lemma_payloads_valid(v, oamd, channels_of(d));
    let ready = if presentation == OBJECT_PRESENTATION {
        v.with_payloads(oamd, channels_of(d))
    } else {
        v
    };
    law_begin_block_on_time(ready.objects, ready.sample_position, frames_of(d));
}

/// Over any run of a reset engine, the engine stays valid and its blocks sit on both timelines:
/// contiguous from zero on the output, in order on the input, each at the exact number of access
/// units before it unless it says that its place is estimated. No metadata update is ever late.
pub proof fn law_timelines(last: EngineView, ops: Seq<EngineOp>)
    requires
        last.valid(),
        runs(last.after_reset(), ops),
    ensures
        ({
            let start = last.after_reset();
            let (v, out) = ran(start, ops);
            v.valid() && on_timeline(start, v, out)
        }),
    decreases ops.len(),
{
    let start = last.after_reset();
    lemma_discontinuity();
    if ops.len() > 0 {
        law_timelines(last, ops.drop_last());
        let (v, had) = ran(start, ops.drop_last());
        lemma_applied(start, v, had, ops.last());
    }
}

/// The same holds from creation on.
pub proof fn law_timelines_of_new(selection: i32, ops: Seq<EngineOp>)
    requires
        runs(EngineView::fresh(selection), ops),
    ensures
        ({
            let start = EngineView::fresh(selection);
            let (v, out) = ran(start, ops);
            v.valid() && on_timeline(start, v, out)
        }),
    decreases ops.len(),
{
    let start = EngineView::fresh(selection);
    if ops.len() > 0 {
        law_timelines_of_new(selection, ops.drop_last());
        let (v, had) = ran(start, ops.drop_last());
        lemma_applied(start, v, had, ops.last());
    }
}

} // verus!
