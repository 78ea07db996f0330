//! What the engine promises of an undamaged stream, and of the same stream again after a reset:
//! every access unit from the first major sync on gives a block, and the layout keeps its
//! identity.

use crate::clean_laws::{
    clean, following, lemma_clean_step, lemma_piece, lemma_split, lemma_starts_grow, start_of,
    whole_major,
};
use crate::engine::{lemma_emitted_counts, lemma_payload_counts};
use crate::engine_laws::{law_block_flags, lemma_discontinuity, lemma_step};
use crate::engine_view::{
    channels_of, first_decoded, frames_of, looks_major, EngineView, RolesView, OBJECT_PRESENTATION,
};
use crate::events::{ActionView, BlockView, DecodedUnit, OamdArrival, UnitView};
use crate::framer::AuInfo;
use crate::framer_laws::joined;
use crate::objects::{delivered, delivered_one, ObjectPayload, ObjectView, MAX_UPDATES_PER_BLOCK};
use crate::stream::{signature, StreamDesc};
use crate::timeline_laws::{
    allowed, applied, lemma_applied, on_timeline, ran, runs, EngineOp, Outcome,
};
use crate::types::{Stats, BLOCK_DISCONTINUITY, BLOCK_LAYOUT_CHANGED};
use vstd::prelude::*;

verus! {

/// What the decoder answers for one access unit: each presentation, and the object metadata.
pub type Answer = (Seq<Option<DecodedUnit>>, Seq<OamdArrival>);

/// The presentation of an answer that goes out.
pub open spec fn answered(a: Answer) -> DecodedUnit {
    a.0[first_decoded(a.0, 0)->0]->0
}

/// Access units handed out by the framer and settled.
pub open spec fn handled(v: EngineView) -> int {
    v.framer.ordinal - (if v.unit is Some {
        1int
    } else {
        0
    })
}

/// The state of an engine on a clean stream: its framer follows it, an access unit at hand is the
/// last one handed out, and decoding waits for a major sync up to the first one only, or where
/// another one is at hand.
pub open spec fn tracks(v: EngineView, units: Seq<Seq<u8>>, k: int) -> bool {
    let m = v.framer.ordinal;
    &&& v.valid()
    &&& following(v.framer, units, k, m, v.framer.consumed + v.framer.pending.len())
    &&& m <= k ==> v.waiting_for_sync
    &&& m > k && v.unit is None ==> !v.waiting_for_sync
    &&& v.unit matches Some(u) ==> {
        &&& m > k
        &&& u.info.ordinal == m - 1
        &&& u.data == units[m - 1]
        &&& v.waiting_for_sync ==> whole_major(u.data)
    }
}

/// A whole major sync has a signature, and looks like one to the parser.
proof fn lemma_major_signature(u: Seq<u8>)
    requires
        whole_major(u),
    ensures
        signature(u) is Some,
        looks_major(u),
{
    let b = u.subrange(4, 8);
    assert(b[0] == u[4] && b[1] == u[5]);
}

/// What going on leaves as it was on a clean stream.
pub open spec fn undisturbed_by_step(v: EngineView, w: EngineView) -> bool {
    w == (EngineView {
        framer: w.framer,
        pushes: w.pushes,
        unit: w.unit,
        probing: w.probing,
        stats: Stats { access_units_skipped: w.stats.access_units_skipped, ..v.stats },
        ..v
    })
}

proof fn lemma_tracks_step(v: EngineView, units: Seq<Seq<u8>>, k: int)
    requires
        clean(units, k),
        tracks(v, units, k),
        v.unit is None,
        v.probing is None,
    ensures
        ({
            let (w, action) = v.stepped();
            &&& tracks(w, units, k)
            &&& undisturbed_by_step(v, w)
            &&& match action {
                None => w.unit is None && w.probing is None && v.framer.ordinal < k
                    && w.framer.ordinal == v.framer.ordinal + 1 && w.framer.pending.len()
                    < v.framer.pending.len(),
                Some(ActionView::NeedMoreData) => w.unit is None && w.probing is None
                    && w.framer.ordinal == v.framer.ordinal,
                Some(ActionView::Probe) => w.unit is Some && whole_major(w.unit->0.data)
                    && w.probing is Some && w.framer.ordinal == v.framer.ordinal + 1,
                Some(ActionView::Decode) => {
                    &&& w.unit is Some
                    &&& w.probing is None
                    &&& w.framer.ordinal == v.framer.ordinal + 1
                    &&& v.framer.ordinal == k ==> v.desc is Some
                },
                _ => false,
            }
        }),
{
    let m = v.framer.ordinal;
    let n = v.framer.consumed + v.framer.pending.len();
    lemma_clean_step(v.framer, units, k, m, n);
    lemma_step(v);
    let (f, r) = v.framer.next();
    assert(f.sync_errors == 0);
    assert(v.framed(f) == (EngineView { framer: f, ..v }));
    if !(r is NeedData) {
        lemma_piece(units, m);
        if m >= k {
            if whole_major(units[m]) {
                lemma_major_signature(units[m]);
            }
        }
    }
}

proof fn lemma_tracks_advance(v: EngineView, units: Seq<Seq<u8>>, k: int)
    requires
        clean(units, k),
        tracks(v, units, k),
        v.unit is None,
        v.probing is None,
    ensures
        ({
            let (w, action) = v.advanced();
            &&& tracks(w, units, k)
            &&& undisturbed_by_step(v, w)
            &&& w.awaits(action)
            &&& !(action is Output)
            &&& w.framer.ordinal >= v.framer.ordinal
            &&& handled(v) > k ==> handled(w) == handled(v)
            &&& handled(v) <= k ==> handled(w) <= k
            &&& action is Probe ==> whole_major(w.unit->0.data)
            &&& action is Decode && handled(w) <= k ==> w.desc is Some
        }),
    decreases v.framer.pending.len(),
{
    lemma_tracks_step(v, units, k);
    let (w, action) = v.stepped();
    if action is None {
        lemma_tracks_advance(w, units, k);
    }
}

/// Whether two metadata states differ at most in the elements that the next update replaces.
pub open spec fn same_but_elements(a: ObjectView, b: ObjectView) -> bool {
    a == (ObjectView { current: a.current, ..b })
}

proof fn lemma_ingest_alike(
    a: ObjectView,
    b: ObjectView,
    payload: ObjectPayload,
    base: int,
    channels: int,
)
    requires
        same_but_elements(a, b),
    ensures
        same_but_elements(
            a.ingest(payload, base, channels).0,
            b.ingest(payload, base, channels).0,
        ),
{
    reveal(ObjectView::ingest);
}

proof fn lemma_delivered_alike(a: ObjectView, b: ObjectView, start: int, end: int, had: int)
    requires
        same_but_elements(a, b),
    ensures
        same_but_elements(delivered(a, start, end, had).0, delivered(b, start, end, had).0),
    decreases a.pending.len(),
{
    if a.pending.len() > 0 && a.pending[0].due < end {
        let p = a.pending[0];
        let x = ObjectView { pending: a.pending.skip(1), ..a };
        let y = ObjectView { pending: b.pending.skip(1), ..b };
        if had >= MAX_UPDATES_PER_BLOCK {
            lemma_delivered_alike(
                ObjectView { current: p.elements, ..x },
                ObjectView { current: p.elements, ..y },
                start,
                end,
                had,
            );
        } else {
            lemma_delivered_alike(
                delivered_one(x, p, start).0,
                delivered_one(y, p, start).0,
                start,
                end,
                had + 1,
            );
        }
    }
}

proof fn lemma_payloads_alike(
    a: EngineView,
    b: EngineView,
    oamd: Seq<OamdArrival>,
    channels: int,
)
    requires
        same_but_elements(a.objects, b.objects),
        a.sample_position == b.sample_position,
    ensures
        ({
            let x = a.with_payloads(oamd, channels);
            let y = b.with_payloads(oamd, channels);
            &&& same_but_elements(x.objects, y.objects)
            &&& x.sample_position == y.sample_position
            &&& x.desc == a.desc
            &&& y.desc == b.desc
        }),
    decreases oamd.len(),
{
    if oamd.len() > 0 {
        lemma_payloads_alike(a, b, oamd.drop_last(), channels);
        let x = a.with_payloads(oamd.drop_last(), channels);
        let y = b.with_payloads(oamd.drop_last(), channels);
        let arrival = oamd.last();
        if let Ok(payload) = arrival.payload {
            lemma_ingest_alike(
                x.objects,
                y.objects,
                payload,
                x.sample_position + arrival.offset,
                channels,
            );
            lemma_ingest_result(
                x.objects,
                y.objects,
                payload,
                x.sample_position + arrival.offset,
                channels,
            );
        }
    }
}

proof fn lemma_ingest_result(
    a: ObjectView,
    b: ObjectView,
    payload: ObjectPayload,
    base: int,
    channels: int,
)
    requires
        same_but_elements(a, b),
    ensures
        a.ingest(payload, base, channels).1 == b.ingest(payload, base, channels).1,
{
    reveal(ObjectView::ingest);
}

/// The channel roles a block reports.
pub open spec fn roles_in(block: BlockView) -> RolesView {
    RolesView {
        sample_rate: block.sample_rate,
        presentation: block.presentation,
        channels: block.channel_count,
        speakers: block.speakers,
    }
}

/// Two engines at the same output position with the same description and the same metadata
/// waiting report the same roles for the same answer.
proof fn lemma_emitted_alike(
    a: EngineView,
    b: EngineView,
    d: DecodedUnit,
    presentation: int,
    u: UnitView,
    w: UnitView,
    oamd: Seq<OamdArrival>,
)
    requires
        same_but_elements(a.objects, b.objects),
        a.sample_position == b.sample_position,
        a.desc == b.desc,
    ensures
        roles_in(a.emitted(d, presentation, u, oamd).1) == roles_in(
            b.emitted(d, presentation, w, oamd).1,
        ),
{
    reveal(EngineView::emitted);
    reveal(EngineView::speakers);
    reveal(ObjectView::begin_block);
    let channels = channels_of(d);
    lemma_payloads_alike(a, b, oamd, channels);
    let x = if presentation == OBJECT_PRESENTATION {
        a.with_payloads(oamd, channels)
    } else {
        a
    };
    let y = if presentation == OBJECT_PRESENTATION {
        b.with_payloads(oamd, channels)
    } else {
        b
    };
    let at = x.sample_position;
    lemma_delivered_alike(x.objects, y.objects, at, at + frames_of(d), 0);
    let xo = EngineView { objects: x.objects.begin_block(at, frames_of(d)).0, ..x };
    let yo = EngineView { objects: y.objects.begin_block(at, frames_of(d)).0, ..y };
    assert(xo.speakers(d, presentation, channels) =~= yo.speakers(d, presentation, channels));
}

/// What a block says of the layout, and leaves behind of it.
proof fn lemma_emitted_layout(
    v: EngineView,
    d: DecodedUnit,
    presentation: int,
    u: UnitView,
    oamd: Seq<OamdArrival>,
)
    requires
        v.pending_flags == 0 || v.pending_flags == BLOCK_DISCONTINUITY,
        v.stats.oamd_payloads + v.stats.oamd_errors + oamd.len() < u64::MAX,
    ensures
        ({
            let (w, block) = v.emitted(d, presentation, u, oamd);
            &&& w.roles == Some(roles_in(block))
            &&& w.layout_serial == block.layout_serial
            &&& v.roles == w.roles ==> block.layout_serial == v.layout_serial
            &&& (block.flags & BLOCK_DISCONTINUITY != 0) == (v.pending_flags
                == BLOCK_DISCONTINUITY)
            &&& (block.flags & BLOCK_LAYOUT_CHANGED != 0) == (v.roles != w.roles)
            &&& block.sample_position == v.sample_position
            &&& block.input_access_unit == u.info.ordinal
            &&& w.pending_flags == 0
        }),
{
    reveal(EngineView::emitted);
    lemma_payload_counts(v, oamd, channels_of(d));
    let x = if presentation == OBJECT_PRESENTATION {
        v.with_payloads(oamd, channels_of(d))
    } else {
        v
    };
    let (objects, metadata) = x.objects.begin_block(x.sample_position, frames_of(d));
    law_block_flags(EngineView { objects, ..x }, d, presentation, u, metadata);
}

/// Whether an engine is as it was created or reset: it has seen nothing, and waits.
pub open spec fn begun(v: EngineView) -> bool {
    &&& v.valid()
    &&& v.framer == v.framer.after_reset()
    &&& v.waiting_for_sync
    &&& v.unit is None
    &&& v.probing is None
    &&& v.sample_position == 0
    &&& v.pending_flags == BLOCK_DISCONTINUITY
    &&& same_but_elements(v.objects, ObjectView::fresh())
    &&& v.stats == Stats::zero()
}

/// Whether an operation belongs to decoding the stream: its next bytes are pushed, and the parser
/// and decoder answer what is given.
pub open spec fn fits(
    v: EngineView,
    op: EngineOp,
    units: Seq<Seq<u8>>,
    desc: StreamDesc,
    answers: Seq<Answer>,
) -> bool {
    match op {
        EngineOp::Push(data, _) => {
            let n = v.framer.consumed + v.framer.pending.len();
            &&& data.len() > 0
            &&& !v.full(data.len() as int)
            &&& n + data.len() <= joined(units).len()
            &&& data == joined(units).subrange(n, n + data.len())
        },
        EngineOp::Pull => true,
        EngineOp::Learnt(d) => d == desc,
        EngineOp::Decoded(slots, oamd) => (slots, oamd) == answers[v.unit->0.info.ordinal as int],
        EngineOp::TakeOrders => true,
        _ => false,
    }
}

/// Whether all operations of a run belong to decoding the stream.
pub open spec fn plays(
    start: EngineView,
    ops: Seq<EngineOp>,
    units: Seq<Seq<u8>>,
    desc: StreamDesc,
    answers: Seq<Answer>,
) -> bool
    decreases ops.len(),
{
    ops.len() == 0 || {
        &&& plays(start, ops.drop_last(), units, desc, answers)
        &&& fits(ran(start, ops.drop_last()).0, ops.last(), units, desc, answers)
    }
}

/// Whether the decoder has an answer for every access unit from the first major sync on.
pub open spec fn all_answered(units: Seq<Seq<u8>>, k: int, answers: Seq<Answer>) -> bool {
    forall|i: int|
        k <= i < units.len() ==> first_decoded((#[trigger] answers[i]).0, 0) is Some
}

/// How many of the access units from `k` to `m` are no duplicates.
pub open spec fn kept(answers: Seq<Answer>, k: int, m: int) -> int
    decreases m - k,
{
    if m <= k {
        0
    } else {
        kept(answers, k, m - 1) + (if answered(answers[m - 1]).is_duplicate {
            0int
        } else {
            1
        })
    }
}

/// The first of them, where there is one.
pub open spec fn first_kept(answers: Seq<Answer>, k: int, m: int) -> int
    decreases m - k,
{
    if m <= k || kept(answers, k, m - 1) == 0 {
        m - 1
    } else {
        first_kept(answers, k, m - 1)
    }
}

/// The roles of a first block made of an answer.
pub open spec fn first_roles(desc: StreamDesc, a: Answer) -> RolesView {
    let v = EngineView { desc: Some(desc), ..EngineView::fresh(0) };
    let u = UnitView {
        info: AuInfo { offset: 0, ordinal: 0, major_sync: true },
        pts: 0,
        pts_au_index: 0,
        data: Seq::empty(),
    };
    roles_in(v.emitted(answered(a), first_decoded(a.0, 0)->0, u, a.1).1)
}

/// What holds while a clean stream is decoded.
pub open spec fn playing(
    start: EngineView,
    v: EngineView,
    out: Seq<Outcome>,
    units: Seq<Seq<u8>>,
    k: int,
    desc: StreamDesc,
    answers: Seq<Answer>,
) -> bool {
    // The engine follows the stream, and knows its description once it decodes.
    &&& tracks(v, units, k)
    &&& v.probing is Some ==> v.unit is Some && whole_major(v.unit->0.data)
    &&& v.desc is None || v.desc == Some(desc)
    &&& v.framer.ordinal > k && v.probing is None ==> v.desc == Some(desc)
    // Every access unit that is no duplicate gave a block.
    &&& out.len() == kept(answers, k, handled(v))
    // Before the first block the layout is the one the run began with.
    &&& out.len() == 0 ==> {
        &&& same_but_elements(v.objects, ObjectView::fresh())
        &&& v.pending_flags == BLOCK_DISCONTINUITY
        &&& v.roles == start.roles
        &&& v.layout_serial == start.layout_serial
        &&& v.sample_position == 0
    }
    // The first block says whether it is, and the layout in force is that of the last.
    &&& out.len() > 0 ==> {
        let first = out[0].block;
        &&& v.roles == Some(roles_in(out.last().block))
        &&& v.layout_serial == out.last().block.layout_serial
        &&& roles_in(first) == first_roles(desc, answers[first_kept(answers, k, handled(v))])
        &&& first.sample_position == 0
        &&& first.flags & BLOCK_DISCONTINUITY != 0
        &&& (first.flags & BLOCK_LAYOUT_CHANGED != 0) == (start.roles != Some(roles_in(first)))
        &&& start.roles == Some(roles_in(first)) ==> first.layout_serial == start.layout_serial
    }
    &&& forall|i: int|
        0 < i < out.len() && roles_in((#[trigger] out[i]).block) == roles_in(out[i - 1].block)
            ==> out[i].block.layout_serial == out[i - 1].block.layout_serial
}

proof fn lemma_kept(answers: Seq<Answer>, k: int, m: int)
    ensures
        kept(answers, k, m) >= 0,
    decreases m - k,
{
    if m > k {
        lemma_kept(answers, k, m - 1);
    }
}

/// A state of a clean run in which only the search for the next access unit went on.
proof fn lemma_play_advance(
    start: EngineView,
    v: EngineView,
    out: Seq<Outcome>,
    units: Seq<Seq<u8>>,
    k: int,
    desc: StreamDesc,
    answers: Seq<Answer>,
)
    requires
        clean(units, k),
        playing(start, v, out, units, k, desc, answers),
        v.unit is None,
        v.probing is None,
    ensures
        playing(start, v.advanced().0, out, units, k, desc, answers),
        !(v.advanced().1 is Output),
{
    lemma_tracks_advance(v, units, k);
    let (w, action) = v.advanced();
    if handled(v) <= k {
        assert(kept(answers, k, handled(v)) == 0);
        assert(kept(answers, k, handled(w)) == 0);
    }
}

/// The engine once the access unit at hand was decoded.
spec fn settled_by(v: EngineView) -> EngineView {
    EngineView {
        waiting_for_sync: false,
        stats: Stats {
            access_units_decoded: (v.stats.access_units_decoded + 1) as u64,
            ..v.stats
        },
        ..v.released()
    }
}

proof fn lemma_tracks_on(v: EngineView, x: EngineView, units: Seq<Seq<u8>>, k: int)
    requires
        tracks(v, units, k),
        v.unit is Some,
        x.valid(),
        x.framer == v.framer,
        x.unit is None,
        !x.waiting_for_sync,
    ensures
        tracks(x, units, k),
        handled(x) == handled(v) + 1,
{
}

proof fn lemma_play_duplicate(
    start: EngineView,
    v: EngineView,
    out: Seq<Outcome>,
    units: Seq<Seq<u8>>,
    k: int,
    desc: StreamDesc,
    answers: Seq<Answer>,
)
    requires
        clean(units, k),
        playing(start, v, out, units, k, desc, answers),
        v.unit is Some,
        v.probing is None,
        answered(answers[v.framer.ordinal - 1]).is_duplicate,
    ensures
        ({
            let w = settled_by(v);
            let x = EngineView {
                stats: Stats {
                    duplicate_access_units: (w.stats.duplicate_access_units + 1) as u64,
                    ..w.stats
                },
                ..w
            };
            &&& playing(start, x.advanced().0, out, units, k, desc, answers)
            &&& !(x.advanced().1 is Output)
        }),
{
    let m = v.framer.ordinal;
    lemma_kept(answers, k, m - 1);
    let w = settled_by(v);
    let x = EngineView {
        stats: Stats {
            duplicate_access_units: (w.stats.duplicate_access_units + 1) as u64,
            ..w.stats
        },
        ..w
    };
    assert(x.valid());
    lemma_tracks_on(v, x, units, k);
    assert(kept(answers, k, m) == kept(answers, k, m - 1));
    if out.len() > 0 {
        assert(first_kept(answers, k, m) == first_kept(answers, k, m - 1));
    }
    assert(playing(start, x, out, units, k, desc, answers));
    lemma_play_advance(start, x, out, units, k, desc, answers);
}

proof fn lemma_play_emitted(
    start: EngineView,
    v: EngineView,
    out: Seq<Outcome>,
    units: Seq<Seq<u8>>,
    k: int,
    desc: StreamDesc,
    answers: Seq<Answer>,
    units_before: int,
)
    requires
        playing(start, v, out, units, k, desc, answers),
        v.unit is Some,
        v.probing is None,
        !answered(answers[v.framer.ordinal - 1]).is_duplicate,
        answers[v.framer.ordinal - 1].1.len() <= v.unit->0.data.len(),
        ({
            let a = answers[v.framer.ordinal - 1];
            let p = first_decoded(a.0, 0)->0;
            settled_by(v).emitted(answered(a), p, v.unit->0, a.1).0.valid()
        }),
    ensures
        ({
            let a = answers[v.framer.ordinal - 1];
            let p = first_decoded(a.0, 0)->0;
            let (x, block) = settled_by(v).emitted(answered(a), p, v.unit->0, a.1);
            playing(
                start,
                x,
                out.push(Outcome { block, units_before }),
                units,
                k,
                desc,
                answers,
            )
        }),
{
    let m = v.framer.ordinal;
    let a = answers[m - 1];
    let p = first_decoded(a.0, 0)->0;
    let d = answered(a);
    let u = v.unit->0;
    let w = settled_by(v);
    lemma_kept(answers, k, m - 1);
    lemma_emitted_counts(w, d, p, u, a.1);
    lemma_emitted_layout(w, d, p, u, a.1);
    let (x, block) = w.emitted(d, p, u, a.1);
    let more = out.push(Outcome { block, units_before });
    lemma_tracks_on(v, x, units, k);
    if out.len() == 0 {
        let f = EngineView { desc: Some(desc), ..EngineView::fresh(0) };
        let none = UnitView {
            info: AuInfo { offset: 0, ordinal: 0, major_sync: true },
            pts: 0,
            pts_au_index: 0,
            data: Seq::empty(),
        };
        lemma_emitted_alike(w, f, d, p, u, none, a.1);
        assert(first_kept(answers, k, m) == m - 1);
        assert(more[0].block == block);
    } else {
        assert(first_kept(answers, k, m) == first_kept(answers, k, m - 1));
        assert(more[0] == out[0]);
    }
    assert(more.last().block == block);
    assert forall|i: int|
        0 < i < more.len() && roles_in((#[trigger] more[i]).block) == roles_in(
            more[i - 1].block,
        ) implies more[i].block.layout_serial == more[i - 1].block.layout_serial by {
        assert(more[i - 1] == out[i - 1]);
        if i < out.len() {
            assert(more[i] == out[i]);
        } else {
            assert(out.last() == out[i - 1]);
        }
    }
}

proof fn lemma_play_learnt(
    start: EngineView,
    v: EngineView,
    out: Seq<Outcome>,
    units: Seq<Seq<u8>>,
    k: int,
    desc: StreamDesc,
    answers: Seq<Answer>,
)
    requires
        playing(start, v, out, units, k, desc, answers),
        v.unit is Some,
        v.probing is Some,
        v.configured(desc).after_probe().0.valid(),
    ensures
        playing(start, v.configured(desc).after_probe().0, out, units, k, desc, answers),
        v.configured(desc).after_probe().1 is Decode,
{
    lemma_discontinuity();
    let u = v.unit->0;
    lemma_major_signature(u.data);
    let c = v.configured(desc);
    let (w, action) = c.decoding(c.unit->0);
    assert(action == Some(ActionView::Decode));
    assert(w.framer == v.framer && w.unit == v.unit);
}

proof fn lemma_play_push(
    start: EngineView,
    v: EngineView,
    out: Seq<Outcome>,
    units: Seq<Seq<u8>>,
    k: int,
    desc: StreamDesc,
    answers: Seq<Answer>,
    data: Seq<u8>,
    pts: i64,
)
    requires
        clean(units, k),
        playing(start, v, out, units, k, desc, answers),
        fits(v, EngineOp::Push(data, pts), units, desc, answers),
        v.after_push(data, pts).0.valid(),
    ensures
        playing(start, v.after_push(data, pts).0, out, units, k, desc, answers),
{
    let s = joined(units);
    let w = v.after_push(data, pts).0;
    let m = v.framer.ordinal;
    let n = v.framer.consumed + v.framer.pending.len();
    assert(w.framer.pending =~= s.subrange(start_of(units, m), n + data.len()));
}

/// Every operation that belongs to decoding a clean stream keeps what holds of it.
proof fn lemma_play(
    start: EngineView,
    v: EngineView,
    out: Seq<Outcome>,
    units: Seq<Seq<u8>>,
    k: int,
    desc: StreamDesc,
    answers: Seq<Answer>,
    op: EngineOp,
)
    requires
        clean(units, k),
        all_answered(units, k, answers),
        playing(start, v, out, units, k, desc, answers),
        allowed(v, op),
        fits(v, op, units, desc, answers),
        applied(v, op).0.valid(),
    ensures
        ({
            let (w, action) = applied(v, op);
            let more = match action {
                Some(ActionView::Output(block)) => out.push(
                    Outcome {
                        block,
                        units_before: v.framer.framed_aus - start.framer.framed_aus - 1,
                    },
                ),
                _ => out,
            };
            playing(start, w, more, units, k, desc, answers)
        }),
{
    match op {
        EngineOp::Push(data, pts) => {
            lemma_play_push(start, v, out, units, k, desc, answers, data, pts);
        },
        EngineOp::Pull => {
            lemma_play_advance(start, v, out, units, k, desc, answers);
        },
        EngineOp::Learnt(d) => {
            lemma_play_learnt(start, v, out, units, k, desc, answers);
        },
        EngineOp::Decoded(slots, oamd) => {
            let a = answers[v.framer.ordinal - 1];
            assert(first_decoded(a.0, 0) is Some);
            let d = answered(a);
            if d.is_duplicate {
                lemma_play_duplicate(start, v, out, units, k, desc, answers);
            } else {
                lemma_play_emitted(
                    start,
                    v,
                    out,
                    units,
                    k,
                    desc,
                    answers,
                    v.framer.framed_aus - start.framer.framed_aus - 1,
                );
            }
        },
        _ => {},
    }
}

/// While an undamaged stream is decoded by a new or reset engine, and the decoder answers for
/// every access unit from the first major sync on, every one of them that is no duplicate gives a
/// block: no other, and none twice. Their places are those of `law_timelines`.
pub proof fn law_clean_blocks(
    start: EngineView,
    ops: Seq<EngineOp>,
    units: Seq<Seq<u8>>,
    k: int,
    desc: StreamDesc,
    answers: Seq<Answer>,
)
    requires
        begun(start),
        start.desc is None || start.desc == Some(desc),
        clean(units, k),
        all_answered(units, k, answers),
        runs(start, ops),
        plays(start, ops, units, desc, answers),
    ensures
        ({
            let (v, out) = ran(start, ops);
            &&& v.valid()
            &&& on_timeline(start, v, out)
            &&& playing(start, v, out, units, k, desc, answers)
            &&& !v.framer.estimated
            &&& v.stats.sync_errors == 0
            &&& v.stats.decode_errors == 0
            &&& handled(v) == units.len() ==> out.len() == kept(answers, k, units.len() as int)
        }),
    decreases ops.len(),
{
    lemma_split(units, units.len() as int);
    if ops.len() == 0 {
        lemma_piece(units, k);
        lemma_starts_grow(units, 0, k);
        assert(start.framer.pending =~= joined(units).subrange(0, 0));
    } else {
        law_clean_blocks(start, ops.drop_last(), units, k, desc, answers);
        let (v, out) = ran(start, ops.drop_last());
        let op = ops.last();
        lemma_applied(start, v, out, op);
        lemma_play(start, v, out, units, k, desc, answers, op);
        lemma_no_failures(v, units, k, desc, answers, op);
    }
}

/// No operation that belongs to decoding a clean stream gives an access unit up.
proof fn lemma_no_failures(
    v: EngineView,
    units: Seq<Seq<u8>>,
    k: int,
    desc: StreamDesc,
    answers: Seq<Answer>,
    op: EngineOp,
)
    requires
        clean(units, k),
        all_answered(units, k, answers),
        tracks(v, units, k),
        v.probing is Some ==> v.unit is Some && whole_major(v.unit->0.data),
        allowed(v, op),
        fits(v, op, units, desc, answers),
    ensures
        applied(v, op).0.stats.decode_errors == v.stats.decode_errors,
{
    match op {
        EngineOp::Pull => {
            lemma_tracks_advance(v, units, k);
        },
        EngineOp::Learnt(d) => {
            lemma_major_signature(v.unit->0.data);
        },
        EngineOp::Decoded(slots, oamd) => {
            let a = answers[v.framer.ordinal - 1];
            assert(first_decoded(a.0, 0) is Some);
            let w = settled_by(v);
            if answered(a).is_duplicate {
                let x = EngineView {
                    stats: Stats {
                        duplicate_access_units: (w.stats.duplicate_access_units + 1) as u64,
                        ..w.stats
                    },
                    ..w
                };
                assert(x.valid());
                lemma_tracks_on(v, x, units, k);
                lemma_tracks_advance(x, units, k);
            } else {
                lemma_emitted_counts(w, answered(a), first_decoded(a.0, 0)->0, v.unit->0, a.1);
            }
        },
        _ => {},
    }
}

/// An undamaged stream with one layout throughout, decoded to its end, and decoded again after a
/// reset with the decoder answering alike: as many blocks come out; the first is flagged as a
/// discontinuity at position zero, and keeps the layout serial without reporting a change.
pub proof fn law_reset_repeats(
    start: EngineView,
    first: Seq<EngineOp>,
    second: Seq<EngineOp>,
    units: Seq<Seq<u8>>,
    k: int,
    desc: StreamDesc,
    answers: Seq<Answer>,
)
    requires
        begun(start),
        start.desc is None || start.desc == Some(desc),
        clean(units, k),
        all_answered(units, k, answers),
        runs(start, first),
        plays(start, first, units, desc, answers),
        handled(ran(start, first).0) == units.len(),
        forall|i: int|
            0 <= i < ran(start, first).1.len() ==> roles_in(
                (#[trigger] ran(start, first).1[i]).block,
            ) == roles_in(ran(start, first).1[0].block),
        runs(ran(start, first).0.after_reset(), second),
        plays(ran(start, first).0.after_reset(), second, units, desc, answers),
        handled(ran(ran(start, first).0.after_reset(), second).0) == units.len(),
    ensures
        ({
            let (v, a) = ran(start, first);
            let (w, b) = ran(v.after_reset(), second);
            &&& a.len() == b.len()
            &&& a.len() > 0 ==> {
                &&& b[0].block.layout_serial == a[0].block.layout_serial
                &&& b[0].block.flags & BLOCK_DISCONTINUITY != 0
                &&& b[0].block.flags & BLOCK_LAYOUT_CHANGED == 0
                &&& b[0].block.sample_position == 0
                &&& roles_in(b[0].block) == roles_in(a[0].block)
            }
        }),
{
    let (v, a) = ran(start, first);
    law_clean_blocks(start, first, units, k, desc, answers);
    law_reset_begins(v);
    let again = v.after_reset();
    law_clean_blocks(again, second, units, k, desc, answers);
    if a.len() > 0 {
        lemma_serials_same(a, a.len() - 1);
        assert(a.last() == a[a.len() - 1]);
    }
}

proof fn lemma_serials_same(out: Seq<Outcome>, i: int)
    requires
        0 <= i < out.len(),
        forall|j: int|
            0 <= j < out.len() ==> roles_in((#[trigger] out[j]).block) == roles_in(out[0].block),
        forall|j: int|
            0 < j < out.len() && roles_in((#[trigger] out[j]).block) == roles_in(out[j - 1].block)
                ==> out[j].block.layout_serial == out[j - 1].block.layout_serial,
    ensures
        out[i].block.layout_serial == out[0].block.layout_serial,
    decreases i,
{
    if i > 0 {
        lemma_serials_same(out, i - 1);
        assert(roles_in(out[i].block) == roles_in(out[i - 1].block));
    }
}

/// A reset engine is as it was created, but for what identifies the stream.
pub proof fn law_reset_begins(v: EngineView)
    requires
        v.valid(),
    ensures
        begun(v.after_reset()),
        v.after_reset().desc == v.desc,
        v.after_reset().roles == v.roles,
        v.after_reset().layout_serial == v.layout_serial,
{
    lemma_discontinuity();
}

/// A new engine has seen nothing.
pub proof fn law_new_begins(selection: i32)
    ensures
        begun(EngineView::fresh(selection)),
{
}

} // verus!
