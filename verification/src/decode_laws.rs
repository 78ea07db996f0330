//! What decoding an access unit gives: the block, field by field, the metadata updates that go out
//! with it, and what is counted.

use crate::delivery_laws::{
    hands_out_stated, law_payload_outcome, lemma_due_part, lemma_stated_goes_out,
    lemma_still_waiting, lemma_waiting, starts_at, waits_for,
};
use crate::element_laws::well_formed;
use crate::engine::{lemma_emitted_counts, lemma_payload_counts};
use crate::engine_laws::{law_block_flags, lemma_discontinuity};
use crate::engine_view::{channels_of, first_decoded, frames_of, EngineView, RolesView};
use crate::events::{Action, ActionView, BlockView, DecodedUnit, OamdArrival, OamdFailure, Unit};
use crate::object_laws::{law_ingest_keeps_valid, law_scheduled};
use crate::objects::{lemma_delivered_len, Layout, ObjectPayload, ObjectView, PendingView};
use crate::stream::label_code;
use crate::timeline_laws::{allowed, EngineOp};
use crate::types::{Block, Metadata, Stats};
use vstd::prelude::*;

verus! {

/// Whether presentation `i` is the first that the decoder produced.
pub open spec fn first_is(slots: Seq<Option<DecodedUnit>>, i: int) -> bool {
    &&& 0 <= i < slots.len()
    &&& slots[i] is Some
    &&& forall|j: int| 0 <= j < i ==> #[trigger] slots[j] is None
}

/// The lesser of a count and its limit.
pub open spec fn at_most(n: int, limit: int) -> int {
    if n < limit {
        n
    } else {
        limit
    }
}

/// Whether presentation `i` is the one of objects, on a stream that has objects.
pub open spec fn of_objects(v: EngineView, i: int) -> bool {
    i == 3 && v.desc is Some && v.desc->0.has_objects
}

/// Whether a block reports what was decoded, the place of its access unit on the input and its own
/// on the output.
pub open spec fn reports_decoded(v: EngineView, d: DecodedUnit, i: int, block: BlockView) -> bool {
    let unit = v.unit->0;
    &&& block.sample_rate == d.sampling_frequency
    &&& block.frame_count == at_most(d.sample_length as int, 160)
    &&& block.channel_count == at_most(d.channel_count as int, 16)
    &&& block.presentation == i
    &&& block.pts == unit.pts
    &&& block.pts_au_index == unit.pts_au_index
    &&& block.input_access_unit == unit.info.ordinal
    &&& block.access_unit_frames == (match v.desc {
        Some(desc) => desc.access_unit_frames as int,
        None => d.sample_length as int,
    })
    &&& block.input_frame_offset == unit.info.ordinal * block.access_unit_frames
    &&& block.sample_position == v.sample_position
}

/// Whether a block reports the speakers of its channels: those of the metadata in force, if they
/// describe as many channels of an object presentation; else those of the labels that the decoder
/// gave, and where there is none an object's or an unknown one. `w` is what the block leaves.
pub open spec fn reports_speakers(
    v: EngineView,
    d: DecodedUnit,
    i: int,
    block: BlockView,
    w: EngineView,
) -> bool {
    let stated = of_objects(v, i) && block.metadata is Some && block.metadata->0.element_count
        == block.channel_count;
    &&& block.speakers.len() == 16
    &&& forall|c: int|
        0 <= c < 16 ==> #[trigger] block.speakers[c] == (if c >= block.channel_count {
            255u8
        } else if stated {
            w.objects.layout->0.speakers[c]
        } else if c < d.channel_labels@.len() {
            label_code(d.channel_labels@[c])
        } else if of_objects(v, i) {
            254u8
        } else {
            255u8
        })
}

/// Whether a block has another rate, presentation, channel count or assignment of speakers than
/// the one before it, or is the first.
pub open spec fn another_layout(v: EngineView, block: BlockView) -> bool {
    match v.roles {
        None => true,
        Some(r) => {
            ||| r.sample_rate != block.sample_rate
            ||| r.presentation != block.presentation
            ||| r.channels != block.channel_count
            ||| r.speakers != block.speakers
        },
    }
}

/// Whether a block's flags and layout serial say what they stand for.
pub open spec fn reports_change(v: EngineView, block: BlockView) -> bool {
    &&& (block.flags & 0x01 != 0) == (v.pending_flags == 1)
    &&& (block.flags & 0x02 != 0) == another_layout(v, block)
    &&& (block.flags & 0x04 != 0) == block.metadata is Some
    &&& (block.flags & 0x08 != 0) == (block.metadata is Some
        && block.metadata->0.updates.len() > 0)
    &&& (block.flags & 0x10 != 0) == v.framer.estimated
    &&& block.layout_serial as int == (if !another_layout(v, block) {
        v.layout_serial as int
    } else if v.layout_serial == u32::MAX {
        0
    } else {
        v.layout_serial + 1
    })
}

/// Whether the engine has counted a block, and gone on.
pub open spec fn counts_block(v: EngineView, block: BlockView, w: EngineView) -> bool {
    let updates: int = match block.metadata {
        Some(m) => m.updates.len() as int,
        None => 0,
    };
    &&& w.sample_position == v.sample_position + block.frame_count
    &&& w.stats.access_units_decoded == v.stats.access_units_decoded + 1
    &&& w.stats.blocks_output == v.stats.blocks_output + 1
    &&& w.stats.frames_output == v.stats.frames_output + block.frame_count
    &&& w.stats.metadata_updates == v.stats.metadata_updates + updates
    &&& w.stats.duplicate_access_units == v.stats.duplicate_access_units
    &&& w.stats.access_units_skipped == v.stats.access_units_skipped
    &&& w.stats.decode_errors == v.stats.decode_errors
    &&& w.stats.sync_errors == v.stats.sync_errors
    &&& w.stats.bytes_pushed == v.stats.bytes_pushed
    &&& w.layout_serial == block.layout_serial
    &&& w.roles == Some(
        RolesView {
            sample_rate: block.sample_rate,
            presentation: block.presentation,
            channels: block.channel_count,
            speakers: block.speakers,
        },
    )
    &&& w.pending_flags == 0
    &&& !w.waiting_for_sync
    &&& w.unit is None
    &&& w.probing is None
    &&& w.framer == v.framer
    &&& w.pushes == v.pushes
    &&& w.desc == v.desc
    &&& w.sync_signature == v.sync_signature
    &&& w.selection == v.selection
    &&& w.resolved == v.resolved
    &&& w.required == v.required
    &&& w.restart_codec == v.restart_codec
    &&& w.set_required == v.set_required
    &&& w.poisoned == v.poisoned
}

/// Metadata are attached exactly while a layout is in force.
proof fn lemma_metadata_layout(v: ObjectView, start: int, frames: int)
    ensures
        ({
            let (w, metadata) = v.begin_block(start, frames);
            &&& metadata is Some == w.layout_in_force() is Some
            &&& metadata is Some ==> w.layout is Some && metadata->0.element_count
                == w.layout->0.element_count && metadata->0.updates.len() <= 16
        }),
{
    reveal(ObjectView::begin_block);
    lemma_delivered_len(v, start, start + frames, 0);
}

/// The first that is decoded.
pub proof fn lemma_first(slots: Seq<Option<DecodedUnit>>, i: int, j: int)
    requires
        first_is(slots, i),
        0 <= j <= i,
    ensures
        first_decoded(slots, j) == Some(i),
    decreases i - j,
{
    if j < i {
        assert(slots[j] is None);
        lemma_first(slots, i, j + 1);
    }
}

proof fn lemma_none_decoded(slots: Seq<Option<DecodedUnit>>, j: int)
    requires
        0 <= j,
        forall|i: int| 0 <= i < slots.len() ==> #[trigger] slots[i] is None,
    ensures
        first_decoded(slots, j) is None,
    decreases slots.len() - j,
{
    if j < slots.len() {
        lemma_none_decoded(slots, j + 1);
    }
}

/// The engine as a decoded access unit leaves it before its block is put together.
proof fn lemma_output(
    v: EngineView,
    slots: Seq<Option<DecodedUnit>>,
    oamd: Seq<OamdArrival>,
    i: int,
)
    requires
        first_is(slots, i),
        !slots[i]->0.is_duplicate,
    ensures
        ({
            let u = EngineView {
                waiting_for_sync: false,
                stats: Stats {
                    access_units_decoded: (v.stats.access_units_decoded + 1) as u64,
                    ..v.stats
                },
                unit: None,
                probing: None,
                ..v
            };
            let (w, block) = u.emitted(slots[i]->0, i, v.unit->0, oamd);
            v.after_decode(slots, oamd) == (w, ActionView::Output(block))
        }),
{
    lemma_first(slots, i, 0);
}

/// A decoded access unit that repeats none goes out as a block of the first presentation that the
/// decoder produced. The block says what was decoded and where it belongs, its flags and its
/// layout serial say what changed, and it is counted once.
pub proof fn law_block(
    v: EngineView,
    slots: Seq<Option<DecodedUnit>>,
    oamd: Seq<OamdArrival>,
    i: int,
)
    requires
        v.valid(),
        allowed(v, EngineOp::Decoded(slots, oamd)),
        first_is(slots, i),
        !slots[i]->0.is_duplicate,
    ensures
        ({
            let (w, action) = v.after_decode(slots, oamd);
            &&& action is Output
            &&& reports_decoded(v, slots[i]->0, i, action->Output_0)
            &&& reports_speakers(v, slots[i]->0, i, action->Output_0, w)
            &&& reports_change(v, action->Output_0)
            &&& counts_block(v, action->Output_0, w)
        }),
{
    let d = slots[i]->0;
    let unit = v.unit->0;
    let u = EngineView {
        waiting_for_sync: false,
        stats: Stats {
            access_units_decoded: (v.stats.access_units_decoded + 1) as u64,
            ..v.stats
        },
        unit: None,
        probing: None,
        ..v
    };
    lemma_output(v, slots, oamd, i);
    lemma_emitted_counts(u, d, i, unit, oamd);
    reveal(EngineView::emitted);
    reveal(EngineView::speakers);
    lemma_payload_counts(u, oamd, channels_of(d));
    let x = if i == 3 {
        u.with_payloads(oamd, channels_of(d))
    } else {
        u
    };
    lemma_metadata_layout(x.objects, x.sample_position, frames_of(d));
    let (objects, metadata) = x.objects.begin_block(x.sample_position, frames_of(d));
    let y = EngineView { objects, ..x };
    law_block_flags(y, d, i, unit, metadata);
    let (w, block) = y.finished(d, i, unit, metadata);
    assert(u.emitted(d, i, unit, oamd) == (w, block));
    assert(y.roles != w.roles <==> another_layout(v, block)) by {
        if v.roles is Some {
            assert(w.roles->0 == (RolesView {
                sample_rate: block.sample_rate,
                presentation: block.presentation,
                channels: block.channel_count,
                speakers: block.speakers,
            }));
        }
    }
    assert(reports_decoded(v, d, i, block));
    assert(reports_speakers(v, d, i, block, w));
    assert(reports_change(v, block));
    assert(counts_block(v, block, w));
}

/// A decoded access unit that repeats the one before it is counted as a duplicate and gives no
/// block: the engine goes on as if pulled. The output position, the layout serial and the metadata
/// that wait stay as they are.
pub proof fn law_duplicate(
    v: EngineView,
    slots: Seq<Option<DecodedUnit>>,
    oamd: Seq<OamdArrival>,
    i: int,
)
    requires
        v.valid(),
        allowed(v, EngineOp::Decoded(slots, oamd)),
        first_is(slots, i),
        slots[i]->0.is_duplicate,
    ensures
        v.after_decode(slots, oamd) == (EngineView {
            waiting_for_sync: false,
            unit: None,
            probing: None,
            stats: Stats {
                access_units_decoded: (v.stats.access_units_decoded + 1) as u64,
                duplicate_access_units: (v.stats.duplicate_access_units + 1) as u64,
                ..v.stats
            },
            ..v
        }).advanced(),
{
    lemma_first(slots, i, 0);
}

/// Whether what was noted is `text`, with a space for every NUL.
pub open spec fn notes(noted: Seq<char>, text: Seq<char>) -> bool {
    &&& noted.len() == text.len()
    &&& forall|i: int|
        0 <= i < text.len() ==> #[trigger] noted[i] == (if text[i] == '\0' {
            ' '
        } else {
            text[i]
        })
}

/// Whether the engine has given an access unit up, noting `text`: counted as an error, with
/// decoding to restart at the next major sync and the metadata so far forgotten.
pub open spec fn gives_up(v: EngineView, text: Seq<char>, w: EngineView) -> bool {
    &&& w.stats == (Stats { decode_errors: (v.stats.decode_errors + 1) as u64, ..v.stats })
    &&& notes(w.last_error, text)
    &&& w.waiting_for_sync
    &&& w.restart_codec
    &&& w.pending_flags == 1
    &&& w.unit is None
    &&& w.probing is None
    &&& !w.objects.have_state
    &&& w.objects.pending.len() == 0
    &&& w.objects.warp_mode == -1
    &&& w.framer == v.framer
    &&& w.pushes == v.pushes
    &&& w.desc == v.desc
    &&& w.sync_signature == v.sync_signature
    &&& w.selection == v.selection
    &&& w.resolved == v.resolved
    &&& w.required == v.required
    &&& w.set_required == v.set_required
    &&& w.oamd_seen == v.oamd_seen
    &&& w.layout_serial == v.layout_serial
    &&& w.roles == v.roles
    &&& w.sample_position == v.sample_position
    &&& w.poisoned == v.poisoned
}

/// An access unit that fails is given up, and the engine goes on as if pulled.
pub proof fn law_failure(v: EngineView, text: Seq<char>)
    requires
        v.valid(),
        v.unit is Some,
    ensures
        exists|u: EngineView|
            gives_up(v, text, u) && v.after_failure(text) == #[trigger] u.advanced(),
{
    lemma_discontinuity();
    let u = v.released().failed(text);
    assert(gives_up(v, text, u));
    assert(v.after_failure(text) == u.advanced());
}

/// An access unit of which the decoder produced no presentation fails.
pub proof fn law_nothing_decoded(
    v: EngineView,
    slots: Seq<Option<DecodedUnit>>,
    oamd: Seq<OamdArrival>,
)
    requires
        forall|i: int| 0 <= i < slots.len() ==> #[trigger] slots[i] is None,
    ensures
        v.after_decode(slots, oamd) == v.after_failure("decoder produced no presentation"@),
{
    lemma_none_decoded(slots, 0);
}

/// The updates that an arrival brings, if it is taken in.
pub open spec fn updates_in(a: OamdArrival) -> int {
    match a.payload {
        Ok(p) => match p.object_data {
            Some(data) => data.updates@.len() as int,
            None => 0,
        },
        Err(_) => 0,
    }
}

/// The updates that arrivals bring, if they are taken in.
pub open spec fn updates_among(oamd: Seq<OamdArrival>) -> int {
    oamd.fold_left(0int, |n: int, a: OamdArrival| n + updates_in(a))
}

/// Whether an arrival is one that can be taken in.
pub open spec fn can_be_taken(a: OamdArrival, channels: int) -> bool {
    a.payload matches Ok(p) && (p.object_data is None || well_formed(p, channels))
}

proof fn lemma_updates_nonneg(oamd: Seq<OamdArrival>)
    ensures
        updates_among(oamd) >= 0,
    decreases oamd.len(),
{
    if oamd.len() > 0 {
        lemma_updates_nonneg(oamd.drop_last());
    }
}

/// What taking in arrivals for which there is room does.
proof fn lemma_arrivals(v: EngineView, oamd: Seq<OamdArrival>, channels: int)
    requires
        v.objects.valid(),
        0 <= channels <= usize::MAX,
        v.objects.pending.len() + updates_among(oamd) <= 64,
        v.stats.oamd_payloads + oamd.len() <= u64::MAX,
        v.stats.oamd_errors + oamd.len() <= u64::MAX,
    ensures
        ({
            let w = v.with_payloads(oamd, channels);
            let taken = oamd.filter(|a: OamdArrival| can_be_taken(a, channels)).len();
            &&& w.objects.valid()
            &&& w.objects.pending.len() <= v.objects.pending.len() + updates_among(oamd)
            &&& w.sample_position == v.sample_position
            &&& taken <= oamd.len()
            &&& w.stats.oamd_payloads == v.stats.oamd_payloads + taken
            &&& w.stats.oamd_errors == v.stats.oamd_errors + (oamd.len() - taken)
            &&& w.oamd_seen == (v.oamd_seen || taken > 0)
            &&& taken == oamd.len() ==> w.last_error == v.last_error
            &&& forall|p: PendingView|
                v.objects.pending.contains(p) ==> #[trigger] w.objects.pending.contains(p)
        }),
    decreases oamd.len(),
{
    reveal(Seq::filter);
    if oamd.len() > 0 {
        let init = oamd.drop_last();
        let a = oamd.last();
        lemma_updates_nonneg(init);
        lemma_arrivals(v, init, channels);
        let u = v.with_payloads(init, channels);
        let w = v.with_payloads(oamd, channels);
        let base = u.sample_position + a.offset;
        init.lemma_filter_len(|a: OamdArrival| can_be_taken(a, channels));
        if let Ok(p) = a.payload {
            law_ingest_keeps_valid(u.objects, p, base, channels);
            law_payload_outcome(u.objects, p, base, channels);
            assert forall|q: PendingView| v.objects.pending.contains(q) implies #[trigger]
                w.objects.pending.contains(q) by {
                assert(u.objects.pending.contains(q));
                lemma_still_waiting(u.objects, p, base, channels, q);
            }
            lemma_ingest_len(u.objects, p, base, channels);
        }
    }
}

proof fn lemma_ingest_len(v: ObjectView, p: ObjectPayload, base: int, channels: int)
    requires
        v.valid(),
        channels >= 0,
        p.object_data matches Some(data) ==> v.pending.len() + data.updates@.len() <= 64,
    ensures
        v.ingest(p, base, channels).0.pending.len() <= v.pending.len() + (match p.object_data {
            Some(data) => data.updates@.len() as int,
            None => 0,
        }),
{
    broadcast use vstd::seq_lib::group_to_multiset_ensures;

    reveal(ObjectView::ingest);
    if p.object_data is Some && p.refusal(channels) is None {
        let new = p.all_updates(base);
        law_scheduled(v.pending, new);
        let w = v.ingest(p, base, channels).0;
        assert(w.pending.to_multiset().len() == w.pending.len());
        assert(v.pending.to_multiset().len() == v.pending.len());
        assert(new.to_multiset().len() == new.len());
    }
}

/// An update of an arrival among several waits once all are taken in.
proof fn lemma_arrival_waits(
    v: EngineView,
    oamd: Seq<OamdArrival>,
    channels: int,
    a: int,
    k: int,
) -> (j: int)
    requires
        v.objects.valid(),
        0 <= channels <= usize::MAX,
        v.objects.pending.len() + updates_among(oamd) <= 64,
        v.stats.oamd_payloads + oamd.len() <= u64::MAX,
        v.stats.oamd_errors + oamd.len() <= u64::MAX,
        0 <= a < oamd.len(),
        oamd[a].payload is Ok,
        well_formed(oamd[a].payload->Ok_0, channels),
        0 <= k < oamd[a].payload->Ok_0.object_data->0.updates@.len(),
    ensures
        ({
            let w = v.with_payloads(oamd, channels);
            let p = oamd[a].payload->Ok_0;
            &&& 0 <= j < w.objects.pending.len()
            &&& waits_for(
                p,
                k,
                starts_at(p, v.sample_position + oamd[a].offset, k),
                w.objects.pending[j],
            )
        }),
    decreases oamd.len(),
{
    let init = oamd.drop_last();
    let last = oamd.last();
    lemma_updates_nonneg(init);
    lemma_arrivals(v, init, channels);
    lemma_arrivals(v, oamd, channels);
    let u = v.with_payloads(init, channels);
    let w = v.with_payloads(oamd, channels);
    let base = u.sample_position + last.offset;
    if a == oamd.len() - 1 {
        lemma_waiting(u.objects, last.payload->Ok_0, base, channels, k)
    } else {
        assert(init[a] == oamd[a]);
        let j = lemma_arrival_waits(v, init, channels, a, k);
        let q = u.objects.pending[j];
        assert(u.objects.pending.contains(q));
        match last.payload {
            Ok(p) => {
                lemma_still_waiting(u.objects, p, base, channels, q);
                w.objects.pending.index_of(q)
            },
            Err(_) => j,
        }
    }
}

/// A payload that an access unit carries `offset` frames in counts from the frame at which the
/// access unit's block starts. Each of its updates whose frame lies in that block goes out with
/// that very block, that many frames in, with every channel as the payload states it (unless 16
/// that start no later go out before it); each whose frame lies behind it goes on waiting for
/// exactly that frame.
pub proof fn law_update_on_its_frame(
    v: EngineView,
    slots: Seq<Option<DecodedUnit>>,
    oamd: Seq<OamdArrival>,
    a: int,
    k: int,
)
    requires
        v.valid(),
        allowed(v, EngineOp::Decoded(slots, oamd)),
        first_is(slots, 3),
        !slots[3]->0.is_duplicate,
        v.objects.pending.len() + updates_among(oamd) <= 64,
        0 <= a < oamd.len(),
        oamd[a].payload is Ok,
        well_formed(oamd[a].payload->Ok_0, at_most(slots[3]->0.channel_count as int, 16)),
        0 <= k < oamd[a].payload->Ok_0.object_data->0.updates@.len(),
    ensures
        ({
            let (w, action) = v.after_decode(slots, oamd);
            let block = action->Output_0;
            let payload = oamd[a].payload->Ok_0;
            let data = payload.object_data->0;
            let into = oamd[a].offset + data.sample_offset + 32
                * data.updates@[k].block_offset_factor;
            &&& action is Output
            &&& block.sample_position == v.sample_position
            &&& into < block.frame_count ==> {
                &&& block.metadata is Some
                &&& block.metadata->0.updates.len() < 16 ==> exists|j: int|
                    0 <= j < block.metadata->0.updates.len() && hands_out_stated(
                        payload,
                        k,
                        into as int,
                        #[trigger] block.metadata->0.updates[j],
                    )
            }
            &&& into >= block.frame_count ==> exists|j: int|
                0 <= j < w.objects.pending.len() && waits_for(
                    payload,
                    k,
                    v.sample_position + into,
                    #[trigger] w.objects.pending[j],
                )
        }),
{
    let d = slots[3]->0;
    let unit = v.unit->0;
    law_block(v, slots, oamd, 3);
    lemma_output(v, slots, oamd, 3);
    let u = EngineView {
        waiting_for_sync: false,
        stats: Stats {
            access_units_decoded: (v.stats.access_units_decoded + 1) as u64,
            ..v.stats
        },
        unit: None,
        probing: None,
        ..v
    };
    reveal(EngineView::emitted);
    let x = u.with_payloads(oamd, channels_of(d));
    lemma_arrivals(u, oamd, channels_of(d));
    let j = lemma_arrival_waits(u, oamd, channels_of(d), a, k);
    let start = x.sample_position;
    let frames = frames_of(d);
    let payload = oamd[a].payload->Ok_0;
    let n = lemma_due_part(x.objects.pending, start + frames);
    lemma_stated_goes_out(x.objects, payload, k, j, start, frames, n);
    let due = x.objects.pending[j].due;
    let (objects, metadata) = x.objects.begin_block(start, frames);
    if due < start + frames {
        if metadata->0.updates.len() < 16 {
            assert(hands_out_stated(payload, k, due - start, metadata->0.updates[j]));
        }
    } else {
        assert(waits_for(payload, k, due, objects.pending[j - n]));
    }
}

/// The object metadata once arrivals were taken in one after the other, each counted from its own
/// frame of the access unit at `start`.
pub open spec fn taken_in(
    objects: ObjectView,
    oamd: Seq<OamdArrival>,
    start: int,
    channels: int,
) -> ObjectView {
    oamd.fold_left(
        objects,
        |o: ObjectView, a: OamdArrival|
            match a.payload {
                Ok(p) => o.ingest(p, start + a.offset, channels).0,
                Err(_) => o,
            },
    )
}

proof fn lemma_taken_in(v: EngineView, oamd: Seq<OamdArrival>, channels: int)
    ensures
        v.with_payloads(oamd, channels).objects == taken_in(
            v.objects,
            oamd,
            v.sample_position,
            channels,
        ),
        v.with_payloads(oamd, channels).sample_position == v.sample_position,
    decreases oamd.len(),
{
    if oamd.len() > 0 {
        lemma_taken_in(v, oamd.drop_last(), channels);
    }
}

/// A block of the object presentation carries the metadata that its own payloads leave for the
/// frames it covers, taken in in their order; a block of another presentation those that waited
/// before.
pub proof fn law_block_carries_metadata(
    v: EngineView,
    slots: Seq<Option<DecodedUnit>>,
    oamd: Seq<OamdArrival>,
    i: int,
)
    requires
        v.valid(),
        allowed(v, EngineOp::Decoded(slots, oamd)),
        first_is(slots, i),
        !slots[i]->0.is_duplicate,
    ensures
        ({
            let (w, action) = v.after_decode(slots, oamd);
            let block = action->Output_0;
            let ready = if i == 3 {
                taken_in(v.objects, oamd, v.sample_position, block.channel_count)
            } else {
                v.objects
            };
            &&& action is Output
            &&& (w.objects, block.metadata) == ready.begin_block(
                v.sample_position,
                block.frame_count,
            )
        }),
{
    law_block(v, slots, oamd, i);
    lemma_output(v, slots, oamd, i);
    let u = EngineView {
        waiting_for_sync: false,
        stats: Stats {
            access_units_decoded: (v.stats.access_units_decoded + 1) as u64,
            ..v.stats
        },
        unit: None,
        probing: None,
        ..v
    };
    reveal(EngineView::emitted);
    lemma_taken_in(u, oamd, channels_of(slots[i]->0));
}

/// The metadata payloads of an access unit of the object presentation are each counted, as taken
/// in or as errors, and noted as seen once one is taken in; an error in the last is the one that is
/// reported, and without errors what was reported before stands. Those of an access unit of another
/// presentation are left alone.
pub proof fn law_payloads_counted(
    v: EngineView,
    slots: Seq<Option<DecodedUnit>>,
    oamd: Seq<OamdArrival>,
    i: int,
)
    requires
        v.valid(),
        allowed(v, EngineOp::Decoded(slots, oamd)),
        first_is(slots, i),
        !slots[i]->0.is_duplicate,
        v.objects.pending.len() + updates_among(oamd) <= 64,
    ensures
        ({
            let w = v.after_decode(slots, oamd).0;
            let channels = at_most(slots[i]->0.channel_count as int, 16);
            let taken = oamd.filter(|a: OamdArrival| can_be_taken(a, channels)).len();
            &&& i == 3 ==> {
                &&& w.stats.oamd_payloads == v.stats.oamd_payloads + taken
                &&& w.stats.oamd_errors == v.stats.oamd_errors + oamd.len() - taken
                &&& w.oamd_seen == (v.oamd_seen || taken > 0)
                &&& taken == oamd.len() ==> w.last_error == v.last_error
                &&& oamd.len() > 0 ==> match oamd.last().payload {
                    Err(OamdFailure::Parse(s)) => notes(
                        w.last_error,
                        "OAMD parse error: "@ + s@,
                    ),
                    Err(OamdFailure::Panicked(s)) => notes(
                        w.last_error,
                        "OAMD parser panicked: "@ + s@,
                    ),
                    Ok(_) => true,
                }
            }
            &&& i != 3 ==> {
                &&& w.stats.oamd_payloads == v.stats.oamd_payloads
                &&& w.stats.oamd_errors == v.stats.oamd_errors
                &&& w.oamd_seen == v.oamd_seen
                &&& w.last_error == v.last_error
            }
        }),
{
    let d = slots[i]->0;
    lemma_output(v, slots, oamd, i);
    let u = EngineView {
        waiting_for_sync: false,
        stats: Stats {
            access_units_decoded: (v.stats.access_units_decoded + 1) as u64,
            ..v.stats
        },
        unit: None,
        probing: None,
        ..v
    };
    reveal(EngineView::emitted);
    lemma_arrivals(u, oamd, channels_of(d));
}

/// A block that is handed out says what its value says, field by field.
pub proof fn law_block_read(b: Block)
    ensures
        b@.sample_rate == b.sample_rate,
        b@.frame_count == b.frame_count,
        b@.channel_count == b.channel_count,
        b@.presentation == b.presentation,
        b@.flags == b.flags,
        b@.access_unit_frames == b.access_unit_frames,
        b@.pts == b.pts,
        b@.pts_au_index == b.pts_au_index,
        b@.layout_serial == b.layout_serial,
        b@.sample_position == b.sample_position,
        b@.input_access_unit == b.input_access_unit,
        b@.input_frame_offset == b.input_frame_offset,
        b@.speakers.len() == 16,
        forall|c: int| 0 <= c < 16 ==> #[trigger] b@.speakers[c] == b.speakers[c],
        b@.metadata is Some == b.metadata is Some,
        b.metadata is Some ==> b@.metadata->0 == b.metadata->0@,
        Action::Output(b)@ == ActionView::Output(b@),
{
}

/// So do its metadata, and each update.
pub proof fn law_metadata_read(m: Metadata, k: int)
    requires
        0 <= k < m.updates@.len(),
    ensures
        m@.element_count == m.element_count,
        m@.bed_count == m.bed_count,
        m@.isf_count == m.isf_count,
        m@.dynamic_count == m.dynamic_count,
        m@.warp_mode == m.warp_mode,
        m@.elements.len() == 16,
        forall|c: int| 0 <= c < 16 ==> #[trigger] m@.elements[c] == m.elements[c],
        m@.updates.len() == m.updates@.len(),
        m@.updates[k].frame_offset == m.updates@[k].frame_offset,
        m@.updates[k].ramp_frames == m.updates@[k].ramp_frames,
        m@.updates[k].elements.len() == 16,
        forall|c: int|
            0 <= c < 16 ==> #[trigger] m@.updates[k].elements[c] == m.updates@[k].elements[c],
{
}

/// So does an access unit that is to be decoded.
pub proof fn law_unit_read(u: Unit)
    ensures
        u@.info == u.info,
        u@.pts == u.pts,
        u@.pts_au_index == u.pts_au_index,
        u@.data == u.data@,
{
}

/// And a layout.
pub proof fn law_layout_read(l: Layout)
    ensures
        l@.element_count == l.element_count,
        l@.bed_count == l.bed_count,
        l@.isf_count == l.isf_count,
        l@.dynamic_count == l.dynamic_count,
        l@.speakers == l.speakers@,
{
}

} // verus!
