//! What the engine promises of the stream description it reports: none before a major sync was
//! probed, and from then on one that the blocks agree with.

use crate::engine::lemma_emitted_counts;
use crate::engine_laws::{lemma_discontinuity, lemma_step};
use crate::engine_view::{channels_of, first_decoded, EngineView};
use crate::events::{ActionView, DecodedUnit, OamdArrival};
use crate::framer::NextView;
use crate::framer_laws::lemma_major_is_checked;
use crate::stream::{law_resolved_range, signature};
use crate::timeline_laws::{allowed, applied, lemma_applied, on_timeline, ran, runs, EngineOp};
use crate::types::{Stats, MAX_PRESENTATIONS};
use vstd::prelude::*;

verus! {

/// Whether an operation answers as the parser and decoder do: every probe learns the stream, and
/// the decoder fills exactly the presentations that are required, with as many channels as the
/// description says.
pub open spec fn faithful(v: EngineView, op: EngineOp) -> bool {
    match op {
        EngineOp::NotLearnt(_) => false,
        EngineOp::Decoded(slots, _) => {
            &&& slots.len() == MAX_PRESENTATIONS
            &&& forall|i: int|
                0 <= i < MAX_PRESENTATIONS ==> (#[trigger] slots[i] is Some) == v.required[i]
            &&& forall|i: int|
                0 <= i < MAX_PRESENTATIONS && #[trigger] slots[i] is Some && v.desc is Some
                    ==> channels_of(slots[i]->0) == v.desc->0.presentations[i].channel_count
        },
        _ => true,
    }
}

/// Whether all operations of a run do.
pub open spec fn all_faithful(start: EngineView, ops: Seq<EngineOp>) -> bool
    decreases ops.len(),
{
    ops.len() == 0 || (all_faithful(start, ops.drop_last()) && faithful(
        ran(start, ops.drop_last()).0,
        ops.last(),
    ))
}

/// Whether a run has learnt the stream.
pub open spec fn learnt(ops: Seq<EngineOp>) -> bool {
    exists|i: int| 0 <= i < ops.len() && #[trigger] ops[i] is Learnt
}

/// Whether exactly the selected presentation is required once the stream is known, and nothing is
/// decoded before.
pub open spec fn consequent(v: EngineView) -> bool {
    &&& v.required.len() == MAX_PRESENTATIONS
    &&& v.desc is Some ==> forall|i: int|
        0 <= i < MAX_PRESENTATIONS ==> #[trigger] v.required[i] == (i == v.resolved)
    &&& v.desc is None ==> v.waiting_for_sync && (v.unit is Some ==> v.probing is Some)
}

proof fn lemma_step_consequent(v: EngineView)
    requires
        v.valid(),
        v.unit is None,
        v.probing is None,
        consequent(v),
    ensures
        consequent(v.stepped().0),
        v.stepped().0.desc == v.desc,
        v.stepped().0.resolved == v.resolved,
{
    lemma_major_is_checked(v.framer);
    let (f, r) = v.framer.next();
    if let NextView::Au(info, data) = r {
        if info.major_sync {
            assert(signature(data) is Some);
        }
    }
}

proof fn lemma_advance_consequent(v: EngineView)
    requires
        v.valid(),
        v.unit is None,
        v.probing is None,
        consequent(v),
    ensures
        consequent(v.advanced().0),
        v.advanced().0.desc == v.desc,
        v.advanced().0.resolved == v.resolved,
        !(v.advanced().1 is Output),
    decreases v.framer.pending.len(),
{
    lemma_step_consequent(v);
    lemma_step(v);
    let (w, action) = v.stepped();
    if action is None {
        lemma_advance_consequent(w);
    }
}

/// The one presentation that is decoded is the one required.
proof fn lemma_first_is_required(slots: Seq<Option<DecodedUnit>>, r: int, i: int)
    requires
        0 <= i <= r < slots.len(),
        forall|j: int| 0 <= j < slots.len() ==> (#[trigger] slots[j] is Some) == (j == r),
    ensures
        first_decoded(slots, i) == Some(r),
    decreases r - i,
{
    if i < r {
        lemma_first_is_required(slots, r, i + 1);
    }
}

/// A block decoded as required is of the selected presentation and has the channels that the
/// description gives it.
pub proof fn law_block_is_selected(
    v: EngineView,
    slots: Seq<Option<DecodedUnit>>,
    oamd: Seq<OamdArrival>,
)
    requires
        v.valid(),
        consequent(v),
        allowed(v, EngineOp::Decoded(slots, oamd)),
        faithful(v, EngineOp::Decoded(slots, oamd)),
    ensures
        ({
            let (w, action) = v.after_decode(slots, oamd);
            &&& consequent(w)
            &&& w.desc == v.desc
            &&& w.desc is Some
            &&& w.resolved == v.resolved
            &&& action matches ActionView::Output(block) ==> {
                &&& block.presentation == w.resolved
                &&& block.channel_count
                    == w.desc->0.presentations[block.presentation].channel_count
            }
        }),
{
    let r = v.resolved;
    assert forall|j: int| 0 <= j < slots.len() implies (#[trigger] slots[j] is Some) == (j
        == r) by {
        assert(v.required[j] == (j == r));
    }
    lemma_first_is_required(slots, r, 0);
    let d = slots[r]->0;
    let w = EngineView {
        waiting_for_sync: false,
        stats: Stats {
            access_units_decoded: (v.stats.access_units_decoded + 1) as u64,
            ..v.stats
        },
        ..v.released()
    };
    if d.is_duplicate {
        let x = EngineView {
            stats: Stats {
                duplicate_access_units: (w.stats.duplicate_access_units + 1) as u64,
                ..w.stats
            },
            ..w
        };
        lemma_advance_consequent(x);
    } else {
        reveal(EngineView::emitted);
        lemma_emitted_counts(w, d, r, v.unit->0, oamd);
    }
}

proof fn lemma_op_consequent(v: EngineView, op: EngineOp)
    requires
        v.valid(),
        consequent(v),
        allowed(v, op),
        faithful(v, op),
    ensures
        consequent(applied(v, op).0),
        applied(v, op).0.desc is Some == (v.desc is Some || op is Learnt),
{
    match op {
        EngineOp::Pull => {
            lemma_advance_consequent(v);
        },
        EngineOp::Learnt(desc) => {
            lemma_discontinuity();
            law_resolved_range(v.selection, desc.map.masks@);
            let c = v.configured(desc);
            let (w, action) = c.decoding(c.unit->0);
            assert(consequent(w));
            if action is None {
                lemma_advance_consequent(w);
            }
        },
        EngineOp::Decoded(slots, oamd) => {
            law_block_is_selected(v, slots, oamd);
        },
        EngineOp::Undecodable(text) => {
            lemma_discontinuity();
            lemma_advance_consequent(v.released().failed(text));
        },
        _ => {},
    }
}

/// From creation on, with every probe learning the stream and the decoder filling what is
/// required: there is a stream description exactly once a major sync was probed, there are no
/// blocks before, and every block that comes out is of the presentation reported as selected, with
/// the channel count reported for it.
#[verifier::rlimit(30)]
pub proof fn law_stream_info(selection: i32, ops: Seq<EngineOp>)
    requires
        runs(EngineView::fresh(selection), ops),
        all_faithful(EngineView::fresh(selection), ops),
    ensures
        ({
            let start = EngineView::fresh(selection);
            let (v, out) = ran(start, ops);
            &&& consequent(v)
            &&& v.valid()
            &&& on_timeline(start, v, out)
            &&& v.desc is Some == learnt(ops)
            &&& ops.len() > 0 ==> {
                let (w, action) = applied(ran(start, ops.drop_last()).0, ops.last());
                action matches Some(ActionView::Output(block)) ==> {
                    &&& v.desc is Some
                    &&& block.presentation == v.resolved
                    &&& block.channel_count
                        == v.desc->0.presentations[block.presentation].channel_count
                }
            }
        }),
    decreases ops.len(),
{
    let start = EngineView::fresh(selection);
    if ops.len() == 0 {
        assert(consequent(start));
    } else {
        let before = ops.drop_last();
        law_stream_info(selection, before);
        let (v, out) = ran(start, before);
        let op = ops.last();
        lemma_applied(start, v, out, op);
        lemma_op_consequent(v, op);
        if learnt(before) {
            let i = choose|i: int| 0 <= i < before.len() && #[trigger] before[i] is Learnt;
            assert(ops[i] is Learnt);
        }
        if op is Learnt {
            assert(ops[ops.len() - 1] is Learnt);
        }
        if learnt(ops) && !(op is Learnt) {
            let i = choose|i: int| 0 <= i < ops.len() && #[trigger] ops[i] is Learnt;
            assert(before[i] is Learnt);
        }
        match op {
            EngineOp::Decoded(slots, oamd) => {
                law_block_is_selected(v, slots, oamd);
            },
            EngineOp::Pull => {
                lemma_advance_consequent(v);
            },
            EngineOp::Learnt(desc) => {
                lemma_learnt_no_block(v, op);
            },
            EngineOp::Undecodable(text) => {
                lemma_learnt_no_block(v, op);
            },
            _ => {},
        }
    }
}

/// Only a decoded access unit gives a block.
proof fn lemma_learnt_no_block(v: EngineView, op: EngineOp)
    requires
        v.valid(),
        consequent(v),
        allowed(v, op),
        op is Learnt || op is Undecodable,
    ensures
        !(applied(v, op).1 matches Some(ActionView::Output(_))),
{
    match op {
        EngineOp::Learnt(desc) => {
            lemma_discontinuity();
            law_resolved_range(v.selection, desc.map.masks@);
            let c = v.configured(desc);
            let (w, action) = c.decoding(c.unit->0);
            if action is None {
                lemma_advance_consequent(w);
            }
        },
        EngineOp::Undecodable(text) => {
            lemma_discontinuity();
            lemma_advance_consequent(v.released().failed(text));
        },
        _ => {},
    }
}

} // verus!
