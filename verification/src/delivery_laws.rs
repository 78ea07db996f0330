//! What becomes of an object audio metadata payload: when each of its updates is due, what the
//! block that contains that frame says of it, and which channels it marks as changed.

use crate::element_laws::{
    bed_places, elements_differ, law_element, law_elements_compared, law_labels, states,
    well_formed, zeros,
};
use crate::object_laws::{law_ingest_keeps_valid, law_scheduled};
use crate::objects::{
    delivered, delivered_one, in_order, inserted, labels_of, lemma_inserted, lemma_slot, scheduled,
    slot, IngestError, LayoutView, ObjectPayload, ObjectView, PendingView, UpdateView,
};
use crate::stream::bed_speaker;
use crate::types::{law_marker, Element};
use vstd::prelude::*;

verus! {

/// Whether `layout` has the channel roles that the payload states.
pub open spec fn states_layout(payload: ObjectPayload, layout: LayoutView) -> bool {
    &&& layout.element_count == payload.object_count
    &&& layout.bed_count == payload.bed_objects
    &&& layout.isf_count == payload.isf_objects
    &&& layout.bed_count + layout.isf_count + layout.dynamic_count == layout.element_count
    &&& layout.speakers.len() == 16
    &&& forall|i: int|
        0 <= i < 16 ==> #[trigger] layout.speakers[i] == (if i >= payload.object_count {
            255u8
        } else if i >= payload.bed_objects {
            254u8
        } else {
            bed_speaker(bed_places(payload.bed_assignment@)[i])
        })
}

/// Whether `e` stands for no channel: silent, and with nothing signalled.
pub open spec fn unused(e: Element) -> bool {
    &&& e.kind == 2
    &&& e.speaker == 254
    &&& e.zone == 0
    &&& e.headphone_mode == 255
    &&& e.flags == 0
    &&& zeros(e.position)
    &&& e.gain.bits == 0
    &&& e.gain_db.bits == 0xFF80_0000
    &&& zeros(e.size)
    &&& e.divergence.bits == 0
    &&& e.priority.bits == 0
    &&& e.distance.bits == 0
    &&& e.screen_factor.bits == 0
    &&& e.depth_factor.bits == 0
    &&& e.dialog == 255
}

/// Whether `p` is update `k` of a payload, due at frame `due`.
pub open spec fn waits_for(payload: ObjectPayload, k: int, due: int, p: PendingView) -> bool {
    &&& p.due == due
    &&& p.ramp == payload.object_data->0.updates@[k].ramp_duration
    &&& states_layout(payload, p.layout)
    &&& p.elements.len() == 16
    &&& forall|i: int|
        0 <= i < payload.object_count ==> states(payload, i, k, #[trigger] p.elements[i])
    &&& forall|i: int| 0 <= i < 16 ==> (#[trigger] p.elements[i]).flags & 0x002 == 0
    &&& forall|i: int| payload.object_count <= i < 16 ==> unused(#[trigger] p.elements[i])
}

/// The frame at which update `k` of a payload starts that counts from frame `base`: its sample
/// offset on, plus 32 frames for each unit of its block offset factor.
pub open spec fn starts_at(payload: ObjectPayload, base: int, k: int) -> int {
    let data = payload.object_data->0;
    base + data.sample_offset + data.updates@[k].block_offset_factor * 32
}

proof fn lemma_update(payload: ObjectPayload, channels: int, base: int, k: int)
    requires
        well_formed(payload, channels),
        0 <= k < payload.object_data->0.updates@.len(),
    ensures
        waits_for(payload, k, starts_at(payload, base, k), payload.all_updates(base)[k]),
{
    let beds = payload.bed_assignment@;
    let labels = labels_of(beds);
    let p = payload.all_updates(base)[k];
    assert(p == payload.update(labels, base, k));
    law_labels(beds);
    assert forall|i: int| 0 <= i < payload.bed_objects implies bed_speaker(labels[i] as int)
        == bed_speaker(bed_places(beds)[i]) by {
        assert(labels.map_values(|l: usize| l as int)[i] == bed_places(beds)[i]);
    }
    assert forall|i: int| 0 <= i < 16 implies (i < payload.object_count ==> states(
        payload,
        i,
        k,
        #[trigger] p.elements[i],
    )) && p.elements[i].flags & 0x002 == 0 by {
        if i < payload.object_count {
            law_element(payload, channels, i, k);
        } else {
            assert(0u32 & 2 == 0) by (bit_vector);
        }
    }
}

proof fn lemma_refusal(payload: ObjectPayload, channels: int)
    requires
        payload.object_data is Some,
        channels >= 0,
    ensures
        payload.refusal(channels) is None == well_formed(payload, channels),
{
    law_labels(payload.bed_assignment@);
}

/// The updates of a queue that are due at frame `due`, in their order.
pub open spec fn due_at(pending: Seq<PendingView>, due: int) -> Seq<PendingView> {
    pending.filter(|p: PendingView| p.due == due)
}

proof fn lemma_none_due(pending: Seq<PendingView>, due: int)
    requires
        forall|i: int| 0 <= i < pending.len() ==> (#[trigger] pending[i]).due != due,
    ensures
        due_at(pending, due) == Seq::<PendingView>::empty(),
    decreases pending.len(),
{
    reveal(Seq::filter);
    if pending.len() > 0 {
        let init = pending.drop_last();
        assert forall|i: int| 0 <= i < init.len() implies (#[trigger] init[i]).due != due by {
            assert(init[i] == pending[i]);
        }
        lemma_none_due(init, due);
        assert(pending[pending.len() - 1].due != due);
    }
    assert(due_at(pending, due) =~= Seq::<PendingView>::empty());
}

proof fn lemma_inserted_due(pending: Seq<PendingView>, p: PendingView, due: int)
    requires
        in_order(pending),
    ensures
        due_at(inserted(pending, p), due) == due_at(pending, due) + due_at(seq![p], due),
{
    let f = |p: PendingView| p.due == due;
    lemma_slot(pending, p.due, 0);
    let at = slot(pending, p.due, 0);
    let front = pending.take(at);
    let back = pending.skip(at);
    assert(inserted(pending, p) =~= (front + seq![p]) + back);
    assert(pending =~= front + back);
    Seq::filter_distributes_over_add(front + seq![p], back, f);
    Seq::filter_distributes_over_add(front, seq![p], f);
    Seq::filter_distributes_over_add(front, back, f);
    if p.due == due {
        assert forall|i: int| 0 <= i < back.len() implies (#[trigger] back[i]).due != due by {
            assert(back[i] == pending[at + i]);
            assert(pending[at].due <= pending[at + i].due);
        }
        lemma_none_due(back, due);
    } else {
        let one = seq![p];
        assert forall|i: int| 0 <= i < one.len() implies (#[trigger] one[i]).due != due by {}
        lemma_none_due(one, due);
    }
    assert(due_at(inserted(pending, p), due) =~= due_at(pending, due) + due_at(seq![p], due));
}

proof fn lemma_scheduled_due(pending: Seq<PendingView>, updates: Seq<PendingView>, due: int)
    requires
        in_order(pending),
        pending.len() + updates.len() <= 64,
    ensures
        due_at(scheduled(pending, updates).0, due) == due_at(pending, due) + due_at(updates, due),
    decreases updates.len(),
{
    let f = |p: PendingView| p.due == due;
    if updates.len() == 0 {
        lemma_none_due(updates, due);
        assert(due_at(pending, due) + due_at(updates, due) =~= due_at(pending, due));
    } else {
        let p = updates[0];
        lemma_inserted(pending, p);
        lemma_inserted_due(pending, p, due);
        lemma_scheduled_due(inserted(pending, p), updates.skip(1), due);
        assert(updates =~= seq![p] + updates.skip(1));
        Seq::filter_distributes_over_add(seq![p], updates.skip(1), f);
        assert(due_at(pending, due) + due_at(seq![p], due) + due_at(updates.skip(1), due)
            =~= due_at(pending, due) + (due_at(seq![p], due) + due_at(updates.skip(1), due)));
    }
}

/// Only as many updates are scheduled as the queue has room for.
proof fn lemma_scheduled_fit(pending: Seq<PendingView>, updates: Seq<PendingView>, fit: int)
    requires
        pending.len() <= 64,
        0 <= fit <= updates.len(),
        fit == updates.len() || pending.len() + fit == 64,
    ensures
        scheduled(pending, updates).0 == scheduled(pending, updates.take(fit)).0,
    decreases updates.len(),
{
    if fit == updates.len() {
        assert(updates.take(fit) =~= updates);
    } else if fit > 0 {
        let next = inserted(pending, updates[0]);
        lemma_slot(pending, updates[0].due, 0);
        lemma_scheduled_fit(next, updates.skip(1), fit - 1);
        assert(updates.take(fit).skip(1) =~= updates.skip(1).take(fit - 1));
    }
}

/// Whether `new` are the first updates of a payload that counts from frame `base`, each due at its
/// own frame.
pub open spec fn updates_of(payload: ObjectPayload, base: int, new: Seq<PendingView>) -> bool {
    forall|k: int|
        0 <= k < new.len() ==> waits_for(
            payload,
            k,
            starts_at(payload, base, k),
            #[trigger] new[k],
        )
}

/// The updates of a payload that can be taken in wait from then on, each due at its own frame and
/// with every channel as the payload states it, besides those that waited before. All wait in the
/// order in which they start, and for the same frame in the order of their arrival. Where the
/// queue of 64 lacks room, the last ones do not fit.
pub proof fn law_payload_waits(v: ObjectView, payload: ObjectPayload, base: int, channels: int)
    requires
        v.valid(),
        well_formed(payload, channels),
    ensures
        ({
            let (w, r) = v.ingest(payload, base, channels);
            let count = payload.object_data->0.updates@.len();
            &&& r is Ok <==> v.pending.len() + count <= 64
            &&& exists|new: Seq<PendingView>|
                {
                    &&& #[trigger] updates_of(payload, base, new)
                    &&& new.len() == (if v.pending.len() + count <= 64 {
                        count as int
                    } else {
                        64 - v.pending.len()
                    })
                    &&& w.pending.to_multiset() == v.pending.to_multiset().add(new.to_multiset())
                    &&& forall|due: int| #[trigger]
                        due_at(w.pending, due) == due_at(v.pending, due) + due_at(new, due)
                }
            &&& in_order(w.pending)
            &&& w.current == v.current
            &&& w.have_state == v.have_state
            &&& w.layout == v.layout
        }),
{
    reveal(ObjectView::ingest);
    lemma_refusal(payload, channels);
    let all = payload.all_updates(base);
    let fit: int = if v.pending.len() + all.len() <= 64 {
        all.len() as int
    } else {
        64 - v.pending.len()
    };
    let new = all.take(fit);
    law_scheduled(v.pending, all);
    law_scheduled(v.pending, new);
    lemma_scheduled_fit(v.pending, all, fit);
    assert forall|k: int| 0 <= k < new.len() implies waits_for(
        payload,
        k,
        starts_at(payload, base, k),
        #[trigger] new[k],
    ) by {
        lemma_update(payload, channels, base, k);
    }
    let w = v.ingest(payload, base, channels).0;
    assert(updates_of(payload, base, new));
    assert(w.pending.to_multiset() == v.pending.to_multiset().add(new.to_multiset()));
    assert forall|due: int| #[trigger] due_at(w.pending, due) == due_at(v.pending, due) + due_at(
        new,
        due,
    ) by {
        lemma_scheduled_due(v.pending, new, due);
    }
}

/// Whatever comes of a payload, its trims say from then on how to warp, and where it has none what
/// was said before stands. One without object data changes nothing else. One with object data that
/// cannot be taken in is refused, for the first of these reasons that holds: the number of
/// channels, the number of beds, a channel that does not state every update. It leaves nothing
/// behind. Where only the queue lacks room, the updates behind those that still fit are dropped.
pub proof fn law_payload_outcome(v: ObjectView, payload: ObjectPayload, base: int, channels: int)
    requires
        v.valid(),
        0 <= channels <= usize::MAX,
    ensures
        ({
            let (w, r) = v.ingest(payload, base, channels);
            let labels = bed_places(payload.bed_assignment@).len();
            &&& w.warp_mode == (match payload.trim {
                Some(t) => t.warp_mode as int,
                None => v.warp_mode as int,
            })
            &&& w.current == v.current
            &&& w.have_state == v.have_state
            &&& w.layout == v.layout
            &&& match payload.object_data {
                None => r is Ok && w.pending == v.pending,
                Some(data) => if payload.object_count != channels || payload.object_count > 16 {
                    &&& w.pending == v.pending
                    &&& r matches Err(IngestError::ElementCount { count, channels: n })
                        && count == payload.object_count && n == channels
                } else if labels != payload.bed_objects || payload.bed_objects
                    + payload.isf_objects > payload.object_count {
                    &&& w.pending == v.pending
                    &&& r matches Err(
                        IngestError::BedAssignment { labels: found, beds, isf, count },
                    ) && found == labels as usize && beds == payload.bed_objects && isf == payload.isf_objects && count
                        == payload.object_count
                } else if !well_formed(payload, channels) {
                    w.pending == v.pending && r == Err::<(), IngestError>(IngestError::ObjectData)
                } else {
                    &&& r is Ok <==> v.pending.len() + data.updates@.len() <= 64
                    &&& r is Err ==> r == Err::<(), IngestError>(IngestError::TooManyPending)
                        && w.pending.len() == 64
                },
            }
        }),
{
    reveal(ObjectView::ingest);
    law_labels(payload.bed_assignment@);
    if payload.object_data is Some {
        lemma_refusal(payload, channels);
        law_scheduled(v.pending, payload.all_updates(base));
        lemma_full(v.pending, payload.all_updates(base));
    }
}

proof fn lemma_full(pending: Seq<PendingView>, updates: Seq<PendingView>)
    requires
        pending.len() <= 64,
    ensures
        !scheduled(pending, updates).1 ==> scheduled(pending, updates).0.len() == 64,
    decreases updates.len(),
{
    if updates.len() > 0 && pending.len() < 64 {
        lemma_slot(pending, updates[0].due, 0);
        lemma_full(inserted(pending, updates[0]), updates.skip(1));
    }
}

/// Whether `e` is `p` but for the CHANGED marker.
pub open spec fn same_but_marker(e: Element, p: Element) -> bool {
    &&& e == (Element { flags: e.flags, ..p })
    &&& e.flags & 0xFFFF_FFFD == p.flags & 0xFFFF_FFFD
}

/// The layout that update `k` of those waiting follows.
pub open spec fn layout_before(v: ObjectView, k: int) -> Option<LayoutView> {
    if k > 0 {
        Some(v.pending[k - 1].layout)
    } else if v.have_state {
        v.layout
    } else {
        None
    }
}

/// Channel `c` as it stands before update `k` of those waiting.
pub open spec fn channel_before(v: ObjectView, k: int, c: int) -> Element {
    if k > 0 {
        v.pending[k - 1].elements[c]
    } else {
        v.current[c]
    }
}

/// Whether `u` hands out update `k` of those waiting with the block that starts at `start`: at the
/// frame where it starts, or the first if that has passed, with its own ramp and channels. A
/// channel carries the CHANGED marker exactly if it differs from what it was, or has another
/// layout, or none, before.
pub open spec fn hands_out(v: ObjectView, k: int, start: int, u: UpdateView) -> bool {
    let p = v.pending[k];
    &&& u.frame_offset == (if p.due > start {
        p.due - start
    } else {
        0
    })
    &&& u.ramp_frames == p.ramp
    &&& u.elements.len() == 16
    &&& forall|c: int| 0 <= c < 16 ==> same_but_marker(#[trigger] u.elements[c], p.elements[c])
    &&& forall|c: int|
        0 <= c < p.layout.element_count ==> ((#[trigger] u.elements[c]).flags & 0x002 != 0) == (
        layout_before(v, k) != Some(p.layout) || elements_differ(
            p.elements[c],
            channel_before(v, k, c),
        ))
    &&& forall|c: int|
        p.layout.element_count <= c < 16 ==> #[trigger] u.elements[c] == p.elements[c]
}

/// Whether the object state `w` is left by the first `n` of the updates waiting, of which the
/// first `m` were handed out.
pub open spec fn left_by(v: ObjectView, n: int, m: int, w: ObjectView) -> bool {
    &&& w.pending == v.pending.skip(n)
    &&& w.warp_mode == v.warp_mode
    &&& w.current.len() == 16
    &&& m == 0 ==> w.have_state == v.have_state && w.layout == v.layout
    &&& m > 0 ==> w.have_state && w.layout == Some(v.pending[m - 1].layout)
    &&& n == 0 ==> w.current == v.current
    &&& n > 0 ==> forall|c: int|
        0 <= c < 16 ==> same_but_marker(#[trigger] w.current[c], v.pending[n - 1].elements[c])
    &&& n > 0 && n == m ==> forall|c: int|
        0 <= c < 16 ==> (#[trigger] w.current[c]).flags & 0x002 == 0
}

proof fn lemma_mask(f: u32, g: u32)
    ensures
        !2u32 == 0xFFFF_FFFDu32,
        (f & 0x002 != 0) == (f & 0x002 == 0x002),
        f & 0x002 == 0 && g & 0x002 == 0 && f & 0xFFFF_FFFD == g & 0xFFFF_FFFD ==> f == g,
        (f & 0xFFFF_FFFD) & 0x002 == 0,
        (f & 0xFFFF_FFFD) & 0xFFFF_FFFD == f & 0xFFFF_FFFD,
{
    assert(!2u32 == 0xFFFF_FFFDu32) by (bit_vector);
    assert((f & 0x002 != 0) == (f & 0x002 == 0x002)) by (bit_vector);
    assert(f & 0x002 == 0 && g & 0x002 == 0 && f & 0xFFFF_FFFD == g & 0xFFFF_FFFD ==> f == g)
        by (bit_vector);
    assert((f & 0xFFFF_FFFD) & 0x002 == 0) by (bit_vector);
    assert((f & 0xFFFF_FFFD) & 0xFFFF_FFFD == f & 0xFFFF_FFFD) by (bit_vector);
}

/// A channel that differs from another in nothing but the marker differs from a third one just
/// where that does.
proof fn lemma_same_differs(a: Element, b: Element, c: Element)
    requires
        same_but_marker(b, c),
    ensures
        elements_differ(a, b) == elements_differ(a, c),
{
    assert(b.position == c.position && b.size == c.size);
}

proof fn lemma_handed_out(v: ObjectView, start: int)
    requires
        v.valid(),
        v.pending.len() > 0,
    ensures
        ({
            let p = v.pending[0];
            let (w, u) = delivered_one(ObjectView { pending: v.pending.skip(1), ..v }, p, start);
            &&& hands_out(v, 0, start, u)
            &&& left_by(v, 1, 1, w)
            &&& w.valid()
        }),
{
    let p = v.pending[0];
    let rest = ObjectView { pending: v.pending.skip(1), ..v };
    let (w, u) = delivered_one(rest, p, start);
    let anew = !v.have_state || v.layout != Some(p.layout);
    assert forall|c: int| 0 <= c < 16 implies same_but_marker(
        #[trigger] u.elements[c],
        p.elements[c],
    ) && same_but_marker(w.current[c], p.elements[c]) && w.current[c].flags & 0x002 == 0 && (c
        < p.layout.element_count ==> (u.elements[c].flags & 0x002 != 0) == (layout_before(v, 0)
        != Some(p.layout) || elements_differ(p.elements[c], v.current[c]))) by {
        let e = p.elements[c];
        lemma_mask(e.flags, e.flags);
        lemma_mask(u.elements[c].flags, e.flags);
        law_elements_compared(e, v.current[c]);
        let changed = anew || !e.equal_values(v.current[c]);
        law_marker(e, changed);
        law_marker(u.elements[c], false);
        lemma_mask(w.current[c].flags, e.flags);
    }
    assert forall|i: int, j: int| 0 <= i <= j < w.pending.len() implies (
    #[trigger] w.pending[i]).due <= (#[trigger] w.pending[j]).due by {
        assert(v.pending[i + 1].due <= v.pending[j + 1].due);
    }
    assert forall|i: int| 0 <= i < w.pending.len() implies (
    #[trigger] w.pending[i]).elements.len() == 16 && w.pending[i].layout.adds_up() by {
        assert(v.pending[i + 1].layout.adds_up());
    }
}

proof fn lemma_delivered(v: ObjectView, start: int, end: int, had: int, n: int)
    requires
        v.valid(),
        0 <= had <= 16,
        0 <= n <= v.pending.len(),
        forall|i: int| 0 <= i < n ==> (#[trigger] v.pending[i]).due < end,
        forall|i: int| n <= i < v.pending.len() ==> (#[trigger] v.pending[i]).due >= end,
    ensures
        ({
            let (w, updates) = delivered(v, start, end, had);
            let m: int = if n <= 16 - had {
                n
            } else {
                16 - had
            };
            &&& updates.len() == m
            &&& forall|k: int| 0 <= k < m ==> hands_out(v, k, start, #[trigger] updates[k])
            &&& left_by(v, n, m, w)
            &&& w.valid()
        }),
    decreases v.pending.len(),
{
    let (w, updates) = delivered(v, start, end, had);
    if n == 0 {
        assert(v.pending.skip(0) =~= v.pending);
    } else {
        let p = v.pending[0];
        let rest = ObjectView { pending: v.pending.skip(1), ..v };
        lemma_handed_out(v, start);
        let x = if had >= 16 {
            ObjectView { current: p.elements, ..rest }
        } else {
            delivered_one(rest, p, start).0
        };
        assert forall|i: int, j: int| 0 <= i <= j < x.pending.len() implies (
        #[trigger] x.pending[i]).due <= (#[trigger] x.pending[j]).due by {
            assert(v.pending[i + 1].due <= v.pending[j + 1].due);
        }
        assert forall|i: int| 0 <= i < x.pending.len() implies (
        #[trigger] x.pending[i]).elements.len() == 16 && x.pending[i].layout.adds_up() by {
            assert(v.pending[i + 1].layout.adds_up());
        }
        assert forall|i: int| 0 <= i < n - 1 implies (#[trigger] x.pending[i]).due < end by {
            assert(v.pending[i + 1].due < end);
        }
        assert forall|i: int| n - 1 <= i < x.pending.len() implies (#[trigger] x.pending[i]).due
            >= end by {
            assert(v.pending[i + 1].due >= end);
        }
        assert(x.pending.skip(n - 1) =~= v.pending.skip(n));
        let next: int = if had >= 16 {
            had
        } else {
            had + 1
        };
        lemma_delivered(x, start, end, next, n - 1);
        if n > 1 {
            assert(x.pending[n - 2] == v.pending[n - 1]);
        }
        if had < 16 {
            let u = delivered_one(rest, p, start).1;
            let more = delivered(x, start, end, next).1;
            assert(updates =~= seq![u] + more);
            let m = updates.len() as int;
            if m > 1 {
                assert(x.pending[m - 2] == v.pending[m - 1]);
            }
            assert forall|k: int| 0 <= k < m implies hands_out(
                v,
                k,
                start,
                #[trigger] updates[k],
            ) by {
                if k > 0 {
                    assert(updates[k] == more[k - 1]);
                    assert(hands_out(x, k - 1, start, more[k - 1]));
                    assert(x.pending[k - 1] == v.pending[k]);
                    assert(layout_before(x, k - 1) == layout_before(v, k)) by {
                        if k > 1 {
                            assert(x.pending[k - 2] == v.pending[k - 1]);
                        }
                    }
                    let q = v.pending[k];
                    assert forall|c: int| 0 <= c < q.layout.element_count implies ((
                    #[trigger] updates[k].elements[c]).flags & 0x002 != 0) == (layout_before(v, k)
                        != Some(q.layout) || elements_differ(
                        q.elements[c],
                        channel_before(v, k, c),
                    )) by {
                        if k > 1 {
                            assert(x.pending[k - 2] == v.pending[k - 1]);
                        } else {
                            assert(q.layout.adds_up());
                            lemma_same_differs(q.elements[c], x.current[c], p.elements[c]);
                        }
                    }
                }
            }
        } else {
            if n == 1 {
                assert forall|c: int| 0 <= c < 16 implies same_but_marker(
                    #[trigger] w.current[c],
                    p.elements[c],
                ) by {}
            }
        }
    }
}

/// A block takes the updates that start before its end, here the first `n` of those waiting, and
/// leaves the rest. It hands the first 16 of them out, each at the frame where it starts and with
/// its own channels and change markers; its own elements, which stand until the next update, are
/// those of the last, unmarked, and its counts are those of the last one handed out. There are
/// none before the first update since everything was forgotten.
pub proof fn law_block_metadata(v: ObjectView, start: int, frames: int, n: int)
    requires
        v.valid(),
        0 <= n <= v.pending.len(),
        forall|i: int| 0 <= i < n ==> (#[trigger] v.pending[i]).due < start + frames,
        forall|i: int|
            n <= i < v.pending.len() ==> (#[trigger] v.pending[i]).due >= start + frames,
    ensures
        ({
            let (w, metadata) = v.begin_block(start, frames);
            let m: int = if n <= 16 {
                n
            } else {
                16
            };
            &&& left_by(v, n, m, w)
            &&& metadata is Some <==> v.have_state || n > 0
            &&& metadata matches Some(data) ==> {
                &&& data.updates.len() == m
                &&& forall|k: int|
                    0 <= k < m ==> hands_out(v, k, start, #[trigger] data.updates[k])
                &&& data.elements == w.current
                &&& data.warp_mode == v.warp_mode
                &&& w.layout is Some
                &&& data.element_count == w.layout->0.element_count
                &&& data.bed_count == w.layout->0.bed_count
                &&& data.isf_count == w.layout->0.isf_count
                &&& data.dynamic_count == w.layout->0.dynamic_count
            }
        }),
{
    reveal(ObjectView::begin_block);
    lemma_delivered(v, start, start + frames, 0, n);
}

/// Whether `u` hands out update `k` of a payload, `offset` frames into its block.
pub open spec fn hands_out_stated(
    payload: ObjectPayload,
    k: int,
    offset: int,
    u: UpdateView,
) -> bool {
    &&& u.frame_offset == offset
    &&& u.ramp_frames == payload.object_data->0.updates@[k].ramp_duration
    &&& u.elements.len() == 16
    &&& forall|i: int|
        0 <= i < payload.object_count ==> states(payload, i, k, #[trigger] u.elements[i])
    &&& forall|i: int| payload.object_count <= i < 16 ==> unused(#[trigger] u.elements[i])
}

proof fn lemma_states_marked(payload: ObjectPayload, i: int, k: int, e: Element, p: Element)
    requires
        same_but_marker(e, p),
        states(payload, i, k, p),
    ensures
        states(payload, i, k, e),
{
    let f = e.flags;
    let g = p.flags;
    assert(f & 0x001 == g & 0x001 && f & 0x004 == g & 0x004 && f & 0x008 == g & 0x008 && f & 0x010
        == g & 0x010 && f & 0x020 == g & 0x020 && f & 0x040 == g & 0x040 && f & 0x080 == g & 0x080
        && f & 0x100 == g & 0x100 && f & 0x07C == g & 0x07C && f < 0x200) by (bit_vector)
        requires
            f & 0xFFFF_FFFD == g & 0xFFFF_FFFD,
            g < 0x200,
    ;
}

/// An update of a payload that waits goes out with the block that contains its frame, as the
/// payload states it, unless 16 updates go out before it.
pub proof fn lemma_stated_goes_out(
    v: ObjectView,
    payload: ObjectPayload,
    k: int,
    j: int,
    start: int,
    frames: int,
    n: int,
)
    requires
        v.valid(),
        0 <= n <= v.pending.len(),
        forall|i: int| 0 <= i < n ==> (#[trigger] v.pending[i]).due < start + frames,
        forall|i: int|
            n <= i < v.pending.len() ==> (#[trigger] v.pending[i]).due >= start + frames,
        0 <= j < v.pending.len(),
        payload.object_count <= 16,
        waits_for(payload, k, v.pending[j].due, v.pending[j]),
        v.pending[j].due >= start,
    ensures
        ({
            let (w, metadata) = v.begin_block(start, frames);
            let due = v.pending[j].due;
            &&& due < start + frames ==> {
                &&& metadata is Some
                &&& j < 16 ==> j < metadata->0.updates.len() && hands_out_stated(
                    payload,
                    k,
                    due - start,
                    metadata->0.updates[j],
                )
                &&& metadata->0.updates.len() < 16 ==> j < 16
            }
            &&& due >= start + frames ==> n <= j && w.pending[j - n] == v.pending[j] && j - n
                < w.pending.len()
        }),
{
    law_block_metadata(v, start, frames, n);
    let (w, metadata) = v.begin_block(start, frames);
    let p = v.pending[j];
    if p.due < start + frames && j < 16 {
        assert(j < n);
        let u = metadata->0.updates[j];
        assert(hands_out(v, j, start, u));
        assert forall|i: int| 0 <= i < payload.object_count implies states(
            payload,
            i,
            k,
            #[trigger] u.elements[i],
        ) by {
            lemma_states_marked(payload, i, k, u.elements[i], p.elements[i]);
        }
        assert forall|i: int| payload.object_count <= i < 16 implies unused(
            #[trigger] u.elements[i],
        ) by {
            assert(u.elements[i] == p.elements[i]);
        }
    }
}

/// Every queue in order has a first part that starts before a frame, and the rest.
pub proof fn lemma_due_part(pending: Seq<PendingView>, end: int) -> (n: int)
    requires
        in_order(pending),
    ensures
        0 <= n <= pending.len(),
        forall|i: int| 0 <= i < n ==> (#[trigger] pending[i]).due < end,
        forall|i: int| n <= i < pending.len() ==> (#[trigger] pending[i]).due >= end,
{
    lemma_slot(pending, end - 1, 0);
    let n = slot(pending, end - 1, 0);
    assert forall|i: int| n <= i < pending.len() implies (#[trigger] pending[i]).due >= end by {
        assert(pending[n].due <= pending[i].due);
    }
    n
}

/// A payload taken in and the block begun that contains the frame of its update `k`: the update
/// goes out with that very block, at that frame, with every channel as the payload states it
/// (unless 16 that start no later go out before it). If the frame lies behind the block, the
/// update goes on waiting for it.
pub proof fn law_payload_goes_out(
    v: ObjectView,
    payload: ObjectPayload,
    base: int,
    channels: int,
    k: int,
    start: int,
    frames: int,
)
    requires
        v.valid(),
        well_formed(payload, channels),
        v.pending.len() + payload.object_data->0.updates@.len() <= 64,
        0 <= k < payload.object_data->0.updates@.len(),
        starts_at(payload, base, k) >= start,
    ensures
        ({
            let due = starts_at(payload, base, k);
            let (w, metadata) = v.ingest(payload, base, channels).0.begin_block(start, frames);
            &&& due < start + frames ==> {
                &&& metadata is Some
                &&& metadata->0.updates.len() < 16 ==> exists|j: int|
                    0 <= j < metadata->0.updates.len() && hands_out_stated(
                        payload,
                        k,
                        due - start,
                        #[trigger] metadata->0.updates[j],
                    )
            }
            &&& due >= start + frames ==> exists|j: int|
                0 <= j < w.pending.len() && waits_for(payload, k, due, #[trigger] w.pending[j])
        }),
{
    law_payload_waits(v, payload, base, channels);
    law_ingest_keeps_valid(v, payload, base, channels);
    let u = v.ingest(payload, base, channels).0;
    let due = starts_at(payload, base, k);
    let j = lemma_waiting(v, payload, base, channels, k);
    let n = lemma_due_part(u.pending, start + frames);
    lemma_stated_goes_out(u, payload, k, j, start, frames, n);
    let (w, metadata) = u.begin_block(start, frames);
    if due < start + frames {
        if metadata->0.updates.len() < 16 {
            assert(hands_out_stated(payload, k, due - start, metadata->0.updates[j]));
        }
    } else {
        assert(waits_for(payload, k, due, w.pending[j - n]));
    }
}

/// An update of a payload taken in stands somewhere in the queue.
pub proof fn lemma_waiting(
    v: ObjectView,
    payload: ObjectPayload,
    base: int,
    channels: int,
    k: int,
) -> (j: int)
    requires
        v.valid(),
        well_formed(payload, channels),
        v.pending.len() + payload.object_data->0.updates@.len() <= 64,
        0 <= k < payload.object_data->0.updates@.len(),
    ensures
        ({
            let w = v.ingest(payload, base, channels).0;
            &&& 0 <= j < w.pending.len()
            &&& waits_for(payload, k, starts_at(payload, base, k), w.pending[j])
            &&& w.pending.len() == v.pending.len() + payload.object_data->0.updates@.len()
        }),
{
    broadcast use vstd::seq_lib::group_to_multiset_ensures;

    law_payload_waits(v, payload, base, channels);
    let w = v.ingest(payload, base, channels).0;
    let new = choose|new: Seq<PendingView>|
        {
            &&& #[trigger] updates_of(payload, base, new)
            &&& new.len() == payload.object_data->0.updates@.len()
            &&& w.pending.to_multiset() == v.pending.to_multiset().add(new.to_multiset())
        };
    let p = new[k];
    assert(new.contains(p));
    assert(new.to_multiset().count(p) > 0);
    assert(w.pending.to_multiset().count(p) > 0);
    assert(w.pending.contains(p));
    assert(w.pending.to_multiset().len() == w.pending.len());
    assert(v.pending.to_multiset().len() == v.pending.len());
    assert(new.to_multiset().len() == new.len());
    w.pending.index_of(p)
}

/// What waited before a payload was taken in still waits.
pub proof fn lemma_still_waiting(
    v: ObjectView,
    payload: ObjectPayload,
    base: int,
    channels: int,
    p: PendingView,
)
    requires
        v.valid(),
        v.pending.contains(p),
        payload.object_data matches Some(data) ==> v.pending.len() + data.updates@.len() <= 64,
        channels >= 0,
    ensures
        v.ingest(payload, base, channels).0.pending.contains(p),
        v.ingest(payload, base, channels).0.pending.len() <= v.pending.len() + (
        match payload.object_data {
            Some(data) => data.updates@.len() as int,
            None => 0,
        }),
{
    broadcast use vstd::seq_lib::group_to_multiset_ensures;

    reveal(ObjectView::ingest);
    if payload.object_data is Some {
        law_scheduled(v.pending, payload.all_updates(base));
        let w = v.ingest(payload, base, channels).0;
        let new = payload.all_updates(base);
        assert(v.pending.to_multiset().count(p) > 0);
        if payload.refusal(channels) is None {
            assert(w.pending.to_multiset().count(p) > 0);
            assert(w.pending.to_multiset().len() == w.pending.len());
            assert(v.pending.to_multiset().len() == v.pending.len());
            assert(new.to_multiset().len() == new.len());
        }
    }
}

/// Once everything is forgotten no update waits, no layout is in force and no warp is signalled.
pub proof fn law_forgotten(v: ObjectView)
    ensures
        v.cleared().pending.len() == 0,
        !v.cleared().have_state,
        v.cleared().layout is None,
        v.cleared().warp_mode == -1,
        v.cleared().current == v.current,
        ObjectView::fresh().pending.len() == 0,
        !ObjectView::fresh().have_state,
        ObjectView::fresh().layout is None,
        ObjectView::fresh().warp_mode == -1,
        ObjectView::fresh().current.len() == 16,
        forall|c: int| 0 <= c < 16 ==> unused(#[trigger] ObjectView::fresh().current[c]),
{
}

} // verus!
