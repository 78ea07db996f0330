//! What the engine promises of input that comes in pieces: pulling before more of it is there
//! changes nothing but which push an access unit is attributed to.

use crate::engine_laws::lemma_step;
use crate::engine_view::EngineView;
use crate::events::UnitView;
use crate::framer::{FramerView, NextView};
use crate::framer_laws::{
    law_step, law_units_stand, law_waiting_loses_nothing, lemma_errors_grow, verdict_turns,
};
use crate::pushes::{lemma_attributed, lemma_recorded, PushesView};
use crate::types::Stats;
use vstd::prelude::*;

verus! {

/// Everything but the attribution to pushes.
pub open spec fn erased(v: EngineView) -> EngineView {
    EngineView {
        pushes: PushesView::fresh(),
        unit: match v.unit {
            Some(u) => Some(UnitView { pts: 0, pts_au_index: 0, ..u }),
            None => None,
        },
        ..v
    }
}

/// Input that is accepted.
pub open spec fn fed(v: EngineView, data: Seq<u8>, pts: i64) -> EngineView {
    EngineView {
        framer: v.framer.after_push(data),
        pushes: v.pushes.recorded(data.len() as int, pts),
        stats: Stats { bytes_pushed: (v.stats.bytes_pushed + data.len()) as u64, ..v.stats },
        ..v
    }
}

/// Whether pulling before `more` comes decides nothing that `more` would have decided otherwise:
/// it meets no verdict that turns, and lets no bytes go for want of a sync.
pub open spec fn pulls_quietly(v: EngineView, more: Seq<u8>) -> bool
    decreases v.framer.pending.len(),
{
    let (f, next) = v.framer.next();
    let (w, action) = v.stepped();
    &&& !verdict_turns(v.framer, more)
    &&& next is NeedData ==> f.consumed == v.framer.consumed
    &&& action is None && w.framer.pending.len() < v.framer.pending.len() ==> pulls_quietly(
        w,
        more,
    )
}

/// Stepping on does not depend on the attribution to pushes.
proof fn lemma_step_erased(a: EngineView, b: EngineView)
    requires
        erased(a) == erased(b),
        a.unit is None,
    ensures
        erased(a.stepped().0) == erased(b.stepped().0),
        a.stepped().1 == b.stepped().1,
        a.stepped().1 is None ==> a.stepped().0.unit is None || a.framer.pending.len()
            <= a.stepped().0.framer.pending.len(),
{
    assert(b.unit is None);
    assert(a.framer == erased(a).framer && b.framer == erased(b).framer);
    assert(a.stats == erased(a).stats && b.stats == erased(b).stats);
    assert(a.objects == erased(a).objects && b.objects == erased(b).objects);
    let (f, next) = a.framer.next();
    let fa = a.framed(f);
    let fb = b.framed(f);
    assert(a == (EngineView { pushes: a.pushes, ..erased(a) }));
    assert(b == (EngineView { pushes: b.pushes, ..erased(a) }));
    assert(fb == (EngineView { pushes: b.pushes, ..fa }));
}

proof fn lemma_advance_erased(a: EngineView, b: EngineView)
    requires
        erased(a) == erased(b),
        a.valid(),
        a.unit is None,
        a.probing is None,
    ensures
        erased(a.advanced().0) == erased(b.advanced().0),
        a.advanced().1 == b.advanced().1,
    decreases a.framer.pending.len(),
{
    lemma_step_erased(a, b);
    lemma_step(a);
    let (w, action) = a.stepped();
    let (x, _) = b.stepped();
    assert(a.framer == erased(a).framer && b.framer == erased(b).framer);
    assert(w.framer == erased(w).framer && x.framer == erased(x).framer);
    if action is None {
        lemma_advance_erased(w, x);
    }
}

/// A step that takes an access unit takes the same one had more input been there.
proof fn lemma_step_stands(v: EngineView, data: Seq<u8>, pts: i64)
    requires
        v.valid(),
        v.unit is None,
        v.probing is None,
        !verdict_turns(v.framer, data),
        !(v.framer.next().1 is NeedData),
    ensures
        erased(fed(v, data, pts).stepped().0) == erased(fed(v.stepped().0, data, pts)),
        fed(v, data, pts).stepped().1 == v.stepped().1,
{
    let (f, next) = v.framer.next();
    let u = fed(v, data, pts);
    law_units_stand(v.framer, data);
    assert(u.framer.next() == (f.after_push(data), next));
    let fv = v.framed(f);
    let fu = u.framed(f.after_push(data));
    assert(fu == (EngineView {
        pushes: fu.pushes,
        framer: f.after_push(data),
        stats: Stats { bytes_pushed: u.stats.bytes_pushed, ..fv.stats },
        ..fv
    }));
}

/// A step that has to wait, and lets nothing go, goes on as if all input had been there.
proof fn lemma_step_waits(v: EngineView, data: Seq<u8>, pts: i64)
    requires
        v.valid(),
        v.unit is None,
        v.probing is None,
        !verdict_turns(v.framer, data),
        v.framer.next().1 is NeedData,
        v.framer.next().0.consumed == v.framer.consumed,
    ensures
        erased(fed(v.stepped().0, data, pts).stepped().0) == erased(fed(v, data, pts).stepped().0),
        fed(v.stepped().0, data, pts).stepped().1 == fed(v, data, pts).stepped().1,
{
    let f = v.framer.next().0;
    let w = v.stepped().0;
    let u = fed(v, data, pts);
    let x = fed(w, data, pts);
    law_waiting_loses_nothing(v.framer, data);
    law_step(v.framer);
    lemma_errors_grow(v.framer);
    lemma_errors_grow(f.after_push(data));
    lemma_one_error(v.framer, data);
    let (g, next) = u.framer.next();
    assert(x.framer.next() == (g, next));
    let fu = u.framed(g);
    let fx = x.framed(g);
    let p = v.pending_flags;
    assert((p | 1u32) | 1u32 == p | 1u32) by (bit_vector);
    assert(fx == (EngineView { pushes: fx.pushes, ..fu }));
}

/// A step that meets damage and has to wait meets no more before it goes on, and then with an
/// access unit that is skipped or a major sync.
proof fn lemma_one_error(f: FramerView, data: Seq<u8>)
    requires
        f.valid(),
        f.next().1 is NeedData,
    ensures
        f.next().0.sync_errors > f.sync_errors ==> {
            let (g, next) = f.next().0.after_push(data).next();
            &&& g.sync_errors == f.next().0.sync_errors
            &&& next matches NextView::Au(info, _) ==> info.major_sync
        },
{
    reveal(FramerView::next);
}

/// Pulling before more input comes changes nothing but which push an access unit is attributed
/// to: what it asks for, it would have asked for just the same with that input there, and where
/// it had to wait it goes on with that input as if it had been there all along. Left out are the
/// inputs on which the framer decides before the bytes that matter are there.
pub proof fn law_pull_then_push(v: EngineView, data: Seq<u8>, pts: i64)
    requires
        v.valid(),
        v.unit is None,
        v.probing is None,
        data.len() > 0,
        !v.full(data.len() as int),
        v.has_room(data.len() as int),
        pulls_quietly(v, data),
    ensures
        v.after_push(data, pts).0 == fed(v, data, pts),
        v.advanced().0.after_push(data, pts).0 == fed(v.advanced().0, data, pts),
        ({
            let (w, action) = v.advanced();
            let (x, later) = fed(v, data, pts).advanced();
            if action is NeedMoreData {
                &&& erased(fed(w, data, pts).advanced().0) == erased(x)
                &&& fed(w, data, pts).advanced().1 == later
            } else {
                &&& erased(fed(w, data, pts)) == erased(x)
                &&& action == later
            }
        }),
    decreases v.framer.pending.len(),
{
    lemma_step(v);
    law_step(v.framer);
    let (w, action) = v.stepped();
    let u = fed(v, data, pts);
    lemma_fed_valid(v, data, pts);
    lemma_step(u);
    if v.framer.next().1 is NeedData {
        lemma_step_waits(v, data, pts);
        lemma_room_stays(v, data.len() as int);
        lemma_fed_valid(w, data, pts);
        lemma_step(fed(w, data, pts));
        let (a, _) = u.stepped();
        let (b, _) = fed(w, data, pts).stepped();
        if u.stepped().1 is None {
            lemma_advance_erased(a, b);
        }
    } else {
        lemma_step_stands(v, data, pts);
        if action is None {
            lemma_room_stays(v, data.len() as int);
            law_pull_then_push(w, data, pts);
            lemma_advance_erased(u.stepped().0, fed(w, data, pts));
        }
    }
}

proof fn lemma_room_stays(v: EngineView, len: int)
    requires
        v.valid(),
        v.unit is None,
        v.probing is None,
        v.has_room(len),
    ensures
        v.stepped().0.has_room(len),
{
    law_step(v.framer);
    match v.framer.next().1 {
        NextView::NeedData => {},
        NextView::Skipped(info) => {
            lemma_attributed(v.pushes, info.offset as int);
        },
        NextView::Au(info, _) => {
            lemma_attributed(v.pushes, info.offset as int);
        },
    }
}

proof fn lemma_fed_valid(v: EngineView, data: Seq<u8>, pts: i64)
    requires
        v.valid(),
        data.len() > 0,
        !v.full(data.len() as int),
        v.has_room(data.len() as int),
    ensures
        fed(v, data, pts).valid(),
{
    lemma_recorded(v.pushes, data.len() as int, pts, v.framer.consumed);
}

} // verus!
