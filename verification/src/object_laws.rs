//! What object metadata promises over several operations: nothing is lost, everything comes
//! out in time, and change markers are exact.

use crate::objects::{
    delivered, delivered_one, in_order, inserted, labels_of, lemma_inserted, lemma_slot, scheduled,
    slot, MetadataView, ObjectPayload, ObjectView, PendingView, MAX_PENDING, MAX_UPDATES_PER_BLOCK,
};
use crate::types::{law_marker, EL_CHANGED, MAX_CHANNELS};
use vstd::multiset::Multiset;
use vstd::prelude::*;
use vstd::seq_lib::to_multiset_insert;

verus! {

/// Scheduling succeeds exactly while the queue has room for all updates. Then each is waiting,
/// besides those that were, in the order in which they start.
pub proof fn law_scheduled(pending: Seq<PendingView>, updates: Seq<PendingView>)
    requires
        in_order(pending),
        pending.len() <= MAX_PENDING,
    ensures
        in_order(scheduled(pending, updates).0),
        scheduled(pending, updates).0.len() <= MAX_PENDING,
        scheduled(pending, updates).1 == (pending.len() + updates.len() <= MAX_PENDING),
        scheduled(pending, updates).1 ==> scheduled(pending, updates).0.to_multiset()
            =~= pending.to_multiset().add(updates.to_multiset()),
    decreases updates.len(),
{
    broadcast use vstd::seq_lib::group_to_multiset_ensures;

    if updates.len() == 0 {
        assert(updates.to_multiset() =~= Multiset::empty());
    } else if pending.len() < MAX_PENDING {
        let p = updates[0];
        lemma_inserted(pending, p);
        law_scheduled(inserted(pending, p), updates.skip(1));
        to_multiset_insert(pending, slot(pending, p.due, 0), p);
        assert(updates =~= updates.skip(1).insert(0, p));
        to_multiset_insert(updates.skip(1), 0, p);
    }
}

/// Whether an update covers all channels, with a layout that adds up.
pub open spec fn complete(p: PendingView) -> bool {
    p.elements.len() == MAX_CHANNELS && p.layout.adds_up()
}

proof fn lemma_scheduled_complete(pending: Seq<PendingView>, updates: Seq<PendingView>)
    requires
        in_order(pending),
        forall|i: int| 0 <= i < pending.len() ==> complete(#[trigger] pending[i]),
        forall|i: int| 0 <= i < updates.len() ==> complete(#[trigger] updates[i]),
    ensures
        forall|i: int|
            0 <= i < scheduled(pending, updates).0.len() ==> complete(
                #[trigger] scheduled(pending, updates).0[i],
            ),
    decreases updates.len(),
{
    if updates.len() > 0 && pending.len() < MAX_PENDING {
        let next = inserted(pending, updates[0]);
        lemma_inserted(pending, updates[0]);
        assert forall|i: int| 0 <= i < next.len() implies complete(#[trigger] next[i]) by {
            if next[i] != updates[0] {
                let k = choose|k: int| 0 <= k < pending.len() && pending[k] == next[i];
                assert(complete(pending[k]));
            }
        }
        assert forall|i: int| 0 <= i < updates.skip(1).len() implies complete(
            #[trigger] updates.skip(1)[i],
        ) by {
            assert(complete(updates[i + 1]));
        }
        lemma_scheduled_complete(next, updates.skip(1));
        assert(scheduled(pending, updates) == scheduled(next, updates.skip(1)));
    } else {
        assert(scheduled(pending, updates).0 == pending);
    }
}

/// Taking in a payload keeps the object metadata valid, whatever comes of it.
pub proof fn law_ingest_keeps_valid(
    v: ObjectView,
    payload: ObjectPayload,
    base: int,
    channels: int,
)
    requires
        v.valid(),
    ensures
        v.ingest(payload, base, channels).0.valid(),
{
    reveal(ObjectView::ingest);
    if payload.object_data is Some && payload.refusal(channels) is None {
        let updates = payload.all_updates(base);
        assert forall|i: int| 0 <= i < updates.len() implies complete(#[trigger] updates[i]) by {
            assert(updates[i] == payload.update(labels_of(payload.bed_assignment@), base, i));
        }
        law_scheduled(v.pending, updates);
        assert forall|i: int| 0 <= i < v.pending.len() implies complete(
            #[trigger] v.pending[i],
        ) by {}
        lemma_scheduled_complete(v.pending, updates);
    }
}

proof fn lemma_delivered_valid(v: ObjectView, start: int, end: int, had: int)
    requires
        v.valid(),
    ensures
        delivered(v, start, end, had).0.valid(),
    decreases v.pending.len(),
{
    if v.pending.len() > 0 && v.pending[0].due < end {
        let p = v.pending[0];
        let rest = ObjectView { pending: v.pending.skip(1), ..v };
        assert forall|i: int, j: int| 0 <= i <= j < rest.pending.len() implies (
        #[trigger] rest.pending[i]).due <= (#[trigger] rest.pending[j]).due by {
            assert(v.pending[i + 1].due <= v.pending[j + 1].due);
        }
        assert forall|i: int| 0 <= i < rest.pending.len() implies (
        #[trigger] rest.pending[i]).elements.len() == MAX_CHANNELS
            && rest.pending[i].layout.adds_up() by {
            assert(v.pending[i + 1].layout.adds_up());
        }
        if had >= MAX_UPDATES_PER_BLOCK {
            lemma_delivered_valid(ObjectView { current: p.elements, ..rest }, start, end, had);
        } else {
            lemma_delivered_valid(delivered_one(rest, p, start).0, start, end, had + 1);
        }
    }
}

/// Beginning a block keeps the object metadata valid.
pub proof fn law_begin_block_keeps_valid(v: ObjectView, start: int, frames: int)
    requires
        v.valid(),
    ensures
        v.begin_block(start, frames).0.valid(),
{
    reveal(ObjectView::begin_block);
    lemma_delivered_valid(v, start, start + frames, 0);
}

/// An update goes behind every one that starts no later and before every one that starts later,
/// so that updates for the same frame come out in the order of their arrival.
pub proof fn law_inserted(pending: Seq<PendingView>, p: PendingView)
    requires
        in_order(pending),
    ensures
        exists|at: int|
            0 <= at <= pending.len() && inserted(pending, p) == #[trigger] pending.insert(at, p)
                && (forall|i: int| 0 <= i < at ==> (#[trigger] pending[i]).due <= p.due) && (
            forall|i: int| at <= i < pending.len() ==> (#[trigger] pending[i]).due > p.due),
{
    lemma_slot(pending, p.due, 0);
    let at = slot(pending, p.due, 0);
    assert(inserted(pending, p) == pending.insert(at, p));
    assert forall|i: int| at <= i < pending.len() implies (#[trigger] pending[i]).due > p.due by {
        assert(pending[at].due <= pending[i].due);
    }
}

proof fn lemma_delivered(v: ObjectView, start: int, end: int, had: int, n: int)
    requires
        in_order(v.pending),
        0 <= n <= v.pending.len(),
        0 <= had <= MAX_UPDATES_PER_BLOCK,
        forall|i: int| 0 <= i < n ==> (#[trigger] v.pending[i]).due < end,
        forall|i: int| n <= i < v.pending.len() ==> (#[trigger] v.pending[i]).due >= end,
    ensures
        ({
            let (w, updates) = delivered(v, start, end, had);
            &&& w.pending == v.pending.skip(n)
            &&& w.warp_mode == v.warp_mode
            &&& updates.len() == (if n <= MAX_UPDATES_PER_BLOCK - had {
                n
            } else {
                MAX_UPDATES_PER_BLOCK - had
            })
            &&& forall|k: int|
                0 <= k < updates.len() ==> (#[trigger] updates[k]).frame_offset == (
                if v.pending[k].due > start {
                    v.pending[k].due - start
                } else {
                    0
                }) && updates[k].ramp_frames == v.pending[k].ramp
            &&& v.have_state || updates.len() > 0 ==> w.have_state
            &&& !v.have_state && had == 0 && n == 0 ==> !w.have_state
        }),
    decreases v.pending.len(),
{
    let (w, updates) = delivered(v, start, end, had);
    if n == 0 {
        assert(v.pending.skip(0) =~= v.pending);
    } else {
        let p = v.pending[0];
        let rest = ObjectView { pending: v.pending.skip(1), ..v };
        assert forall|i: int, j: int| 0 <= i <= j < rest.pending.len() implies (
        #[trigger] rest.pending[i]).due <= (#[trigger] rest.pending[j]).due by {
            assert(v.pending[i + 1].due <= v.pending[j + 1].due);
        }
        assert forall|i: int| 0 <= i < n - 1 implies (#[trigger] rest.pending[i]).due < end by {
            assert(v.pending[i + 1].due < end);
        }
        assert forall|i: int| n - 1 <= i < rest.pending.len() implies (
        #[trigger] rest.pending[i]).due >= end by {
            assert(v.pending[i + 1].due >= end);
        }
        assert(rest.pending.skip(n - 1) =~= v.pending.skip(n));
        if had >= MAX_UPDATES_PER_BLOCK {
            lemma_delivered(ObjectView { current: p.elements, ..rest }, start, end, had, n - 1);
        } else {
            let (x, update) = delivered_one(rest, p, start);
            lemma_delivered(x, start, end, had + 1, n - 1);
            let more = delivered(x, start, end, had + 1).1;
            assert(updates =~= seq![update] + more);
            assert forall|k: int| 0 <= k < updates.len() implies (
            #[trigger] updates[k]).frame_offset == (if v.pending[k].due > start {
                v.pending[k].due - start
            } else {
                0
            }) && updates[k].ramp_frames == v.pending[k].ramp by {
                if k > 0 {
                    assert(updates[k] == more[k - 1]);
                    assert(x.pending[k - 1] == v.pending[k]);
                }
            }
        }
    }
}

/// A block takes exactly the waiting updates that start before its end, and leaves the rest. It
/// carries them in order, up to as many as it can, each at the frame where it starts, or at its
/// first frame if that has passed; so every offset lies within the block.
pub proof fn law_begin_block(v: ObjectView, start: int, frames: int)
    requires
        v.valid(),
        frames > 0,
    ensures
        ({
            let end = start + frames;
            let n = slot(v.pending, end - 1, 0);
            let (w, updates) = delivered(v, start, end, 0);
            &&& 0 <= n <= v.pending.len()
            &&& forall|i: int| 0 <= i < n ==> (#[trigger] v.pending[i]).due < end
            &&& forall|i: int| n <= i < v.pending.len() ==> (#[trigger] v.pending[i]).due >= end
            &&& w.pending == v.pending.skip(n)
            &&& updates.len() == (if n <= MAX_UPDATES_PER_BLOCK {
                n
            } else {
                MAX_UPDATES_PER_BLOCK as int
            })
            &&& forall|k: int|
                0 <= k < updates.len() ==> 0 <= (#[trigger] updates[k]).frame_offset < frames && (
                v.pending[k].due >= start ==> start + updates[k].frame_offset
                    == v.pending[k].due) && updates[k].ramp_frames == v.pending[k].ramp
            &&& v.begin_block(start, frames).1 is Some <==> v.have_state || n > 0
        }),
{
    let end = start + frames;
    lemma_slot(v.pending, end - 1, 0);
    let n = slot(v.pending, end - 1, 0);
    assert forall|i: int| n <= i < v.pending.len() implies (#[trigger] v.pending[i]).due >= end by {
        assert(v.pending[n].due <= v.pending[i].due);
    }
    reveal(ObjectView::begin_block);
    lemma_delivered(v, start, end, 0, n);
    lemma_delivered_layout(v, start, end, 0);
}

proof fn lemma_delivered_layout(v: ObjectView, start: int, end: int, had: int)
    requires
        v.have_state ==> v.layout is Some,
    ensures
        ({
            let w = delivered(v, start, end, had).0;
            w.have_state ==> w.layout is Some
        }),
    decreases v.pending.len(),
{
    if v.pending.len() > 0 && v.pending[0].due < end {
        let p = v.pending[0];
        let rest = ObjectView { pending: v.pending.skip(1), ..v };
        if had >= MAX_UPDATES_PER_BLOCK {
            lemma_delivered_layout(ObjectView { current: p.elements, ..rest }, start, end, had);
        } else {
            lemma_delivered_layout(delivered_one(rest, p, start).0, start, end, had + 1);
        }
    }
}

/// Whether no update that waits should have started before `frame`.
pub open spec fn on_time(v: ObjectView, frame: int) -> bool {
    forall|i: int| 0 <= i < v.pending.len() ==> (#[trigger] v.pending[i]).due >= frame
}

proof fn lemma_scheduled_on_time(
    pending: Seq<PendingView>,
    updates: Seq<PendingView>,
    frame: int,
)
    requires
        in_order(pending),
        forall|i: int| 0 <= i < pending.len() ==> (#[trigger] pending[i]).due >= frame,
        forall|i: int| 0 <= i < updates.len() ==> (#[trigger] updates[i]).due >= frame,
    ensures
        forall|i: int|
            0 <= i < scheduled(pending, updates).0.len() ==> (#[trigger] scheduled(
                pending,
                updates,
            ).0[i]).due >= frame,
    decreases updates.len(),
{
    if updates.len() > 0 && pending.len() < MAX_PENDING {
        let next = inserted(pending, updates[0]);
        lemma_inserted(pending, updates[0]);
        assert forall|i: int| 0 <= i < next.len() implies (#[trigger] next[i]).due >= frame by {
            if next[i] != updates[0] {
                let k = choose|k: int| 0 <= k < pending.len() && pending[k] == next[i];
                assert(pending[k].due >= frame);
            }
        }
        assert forall|i: int| 0 <= i < updates.skip(1).len() implies (
        #[trigger] updates.skip(1)[i]).due >= frame by {
            assert(updates[i + 1].due >= frame);
        }
        lemma_scheduled_on_time(next, updates.skip(1), frame);
        assert(scheduled(pending, updates) == scheduled(next, updates.skip(1)));
    } else {
        assert(scheduled(pending, updates).0 == pending);
    }
}

/// The updates of a payload start no earlier than the frame it is counted from, so that none
/// taken in at that frame or before is late.
pub proof fn law_ingest_on_time(
    v: ObjectView,
    payload: ObjectPayload,
    base: int,
    channels: int,
    frame: int,
)
    requires
        v.valid(),
        on_time(v, frame),
        frame <= base,
    ensures
        on_time(v.ingest(payload, base, channels).0, frame),
{
    reveal(ObjectView::ingest);
    if payload.object_data is Some && payload.refusal(channels) is None {
        let updates = payload.all_updates(base);
        assert forall|i: int| 0 <= i < updates.len() implies (#[trigger] updates[i]).due
            >= frame by {
            assert(updates[i] == payload.update(labels_of(payload.bed_assignment@), base, i));
        }
        lemma_scheduled_on_time(v.pending, updates, frame);
    }
}

/// Where no update is late, a block hands every one out at exactly the frame where it starts, and
/// none is late for the block behind it.
pub proof fn law_begin_block_on_time(v: ObjectView, start: int, frames: int)
    requires
        v.valid(),
        frames >= 0,
        on_time(v, start),
    ensures
        ({
            let (w, metadata) = v.begin_block(start, frames);
            &&& on_time(w, start + frames)
            &&& metadata matches Some(m) ==> forall|k: int|
                0 <= k < m.updates.len() ==> start + (#[trigger] m.updates[k]).frame_offset
                    == v.pending[k].due
        }),
{
    reveal(ObjectView::begin_block);
    let end = start + frames;
    lemma_slot(v.pending, end - 1, 0);
    let n = slot(v.pending, end - 1, 0);
    assert forall|i: int| n <= i < v.pending.len() implies (#[trigger] v.pending[i]).due >= end by {
        assert(v.pending[n].due <= v.pending[i].due);
    }
    lemma_delivered(v, start, end, 0, n);
    let updates = delivered(v, start, end, 0).1;
    assert forall|k: int| 0 <= k < updates.len() implies start + (
    #[trigger] updates[k]).frame_offset == v.pending[k].due by {
        assert(v.pending[k].due >= start);
    }
}

/// In an update that is handed out, an element carries the CHANGED marker exactly if it differs
/// from the one before it in what a renderer acts on, if the layout changed, or if no update
/// came before. The elements kept for the next comparison carry no marker.
pub proof fn law_changed_marker(v: ObjectView, p: PendingView, start: int, i: int)
    requires
        0 <= i < p.layout.element_count <= MAX_CHANNELS,
    ensures
        ({
            let (w, u) = delivered_one(v, p, start);
            &&& (u.elements[i].flags & EL_CHANGED == EL_CHANGED) == (!v.have_state || v.layout
                != Some(p.layout) || !p.elements[i].equal_values(v.current[i]))
            &&& u.elements[i].flags & !EL_CHANGED == p.elements[i].flags & !EL_CHANGED
            &&& w.current[i].flags & EL_CHANGED != EL_CHANGED
            &&& w.current[i].flags & !EL_CHANGED == p.elements[i].flags & !EL_CHANGED
        }),
{
    let changed = !v.have_state || v.layout != Some(p.layout) || !p.elements[i].equal_values(
        v.current[i],
    );
    law_marker(p.elements[i], changed);
    law_marker(p.elements[i].marked(changed), false);
}

/// After everything was forgotten no metadata is attached until an update is delivered.
pub proof fn law_nothing_after_clear(v: ObjectView, start: int, frames: int)
    ensures
        v.cleared().layout_in_force() is None,
        v.cleared().begin_block(start, frames) == (v.cleared(), None::<MetadataView>),
{
    reveal(ObjectView::begin_block);
}

} // verus!
