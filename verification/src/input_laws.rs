//! What becomes of input: pushes and the access units that begin in them, and what pulling makes of
//! what the framer hands out.

use crate::engine_laws::{lemma_discontinuity, lemma_step};
use crate::engine_view::EngineView;
use crate::events::UnitView;
use crate::framer::{AuInfo, FramerView, Lock, NextView};
use crate::framer_laws::{
    info_of, law_step, law_sync_comes_first, lemma_errors_grow, lemma_major_is_checked,
};
use crate::pushes::{law_attribution, law_attribution_counts, lemma_recorded, PushesView};
use crate::stream::signature;
use crate::text::without_nul;
use crate::types::Stats;
use vstd::prelude::*;

verus! {

/// A push is recorded behind the others, from the first byte not pushed yet on, with its own pts,
/// as long as there are fewer than 65536 records. Then it joins the last one, whose pts is unknown
/// from then on unless the push has the same. No other record changes.
pub proof fn law_recorded(v: PushesView, len: int, pts: i64)
    requires
        v.valid(),
        len > 0,
        v.pushed + len <= u64::MAX,
        v.next_serial < u64::MAX,
    ensures
        ({
            let w = v.recorded(len, pts);
            let n = v.chunks.len() as int;
            &&& w.pushed == v.pushed + len
            &&& w.au_chunk == v.au_chunk
            &&& w.au_in_chunk == v.au_in_chunk
            &&& n < 0x1_0000 ==> {
                &&& w.chunks.len() == n + 1
                &&& w.chunks[n].start == v.pushed
                &&& w.chunks[n].pts == pts
                &&& w.chunks[n].serial == v.next_serial
                &&& w.next_serial == v.next_serial + 1
                &&& forall|i: int| 0 <= i < n ==> #[trigger] w.chunks[i] == v.chunks[i]
            }
            &&& n >= 0x1_0000 ==> {
                &&& w.chunks.len() == n
                &&& w.chunks[n - 1].start == v.chunks[n - 1].start
                &&& w.chunks[n - 1].serial == v.chunks[n - 1].serial
                &&& v.chunks[n - 1].pts == pts ==> w.chunks[n - 1].pts == pts
                &&& v.chunks[n - 1].pts != pts ==> w.chunks[n - 1].pts == i64::MIN
                &&& w.next_serial == v.next_serial
                &&& forall|i: int| 0 <= i < n - 1 ==> #[trigger] w.chunks[i] == v.chunks[i]
            }
        }),
{
    reveal(PushesView::recorded);
}

/// Where recording pushes of these lengths and pts one by one leads.
pub open spec fn recorded_all(v: PushesView, pushes: Seq<(int, i64)>) -> PushesView
    decreases pushes.len(),
{
    if pushes.len() == 0 {
        v
    } else {
        recorded_all(v, pushes.drop_last()).recorded(pushes.last().0, pushes.last().1)
    }
}

/// The bytes in the first `k` pushes.
pub open spec fn bytes_before(pushes: Seq<(int, i64)>, k: int) -> int {
    pushes.take(k).fold_left(0int, |n: int, p: (int, i64)| n + p.0)
}

proof fn lemma_bytes_before(pushes: Seq<(int, i64)>, k: int)
    requires
        0 <= k < pushes.len(),
    ensures
        bytes_before(pushes, k + 1) == bytes_before(pushes, k) + pushes[k].0,
        bytes_before(pushes.take(k + 1), k) == bytes_before(pushes, k),
{
    assert(pushes.take(k + 1).drop_last() =~= pushes.take(k));
    assert(pushes.take(k + 1).take(k) =~= pushes.take(k));
}

proof fn lemma_recorded_all(v: PushesView, pushes: Seq<(int, i64)>)
    requires
        v.valid(),
        v.chunks.len() == 0,
        v.pushed == 0,
        v.au_chunk is None,
        pushes.len() <= 0x1_0000,
        v.next_serial + pushes.len() <= u64::MAX,
        forall|i: int| 0 <= i < pushes.len() ==> (#[trigger] pushes[i]).0 > 0,
        bytes_before(pushes, pushes.len() as int) <= u64::MAX,
    ensures
        ({
            let w = recorded_all(v, pushes);
            &&& w.valid()
            &&& w.pushed == bytes_before(pushes, pushes.len() as int)
            &&& w.pushed >= 0
            &&& w.au_chunk is None
            &&& w.next_serial == v.next_serial + pushes.len()
            &&& w.chunks.len() == pushes.len()
            &&& forall|i: int|
                0 <= i < pushes.len() ==> (#[trigger] w.chunks[i]).start == bytes_before(pushes, i)
                    && w.chunks[i].pts == pushes[i].1
        }),
    decreases pushes.len(),
{
    let n = pushes.len() as int;
    if n == 0 {
        assert(pushes.take(0) =~= Seq::<(int, i64)>::empty());
    } else {
        let init = pushes.drop_last();
        assert(init =~= pushes.take(n - 1));
        assert(pushes.take(n) =~= pushes);
        lemma_bytes_before(pushes, n - 1);
        assert(init.take(n - 1) =~= init);
        assert forall|i: int| 0 <= i < init.len() implies (#[trigger] init[i]).0 > 0 by {
            assert(init[i] == pushes[i]);
        }
        assert(pushes[n - 1].0 > 0);
        lemma_recorded_all(v, init);
        let u = recorded_all(v, init);
        let w = recorded_all(v, pushes);
        law_recorded(u, pushes[n - 1].0, pushes[n - 1].1);
        lemma_recorded(u, pushes[n - 1].0, pushes[n - 1].1, u.pushed);
        assert forall|i: int| 0 <= i < n implies (#[trigger] w.chunks[i]).start == bytes_before(
            pushes,
            i,
        ) && w.chunks[i].pts == pushes[i].1 by {
            if i < n - 1 {
                assert(w.chunks[i] == u.chunks[i]);
                assert(init.take(i) =~= pushes.take(i));
            }
        }
    }
}

/// After any pushes since a reset, an access unit whose first byte lies in push `k` is given the
/// pts of that push, and is the first that begins in it.
pub proof fn law_pts_of_push(last: PushesView, pushes: Seq<(int, i64)>, k: int, offset: int)
    requires
        last.valid(),
        pushes.len() <= 0x1_0000,
        last.next_serial + pushes.len() <= u64::MAX,
        forall|i: int| 0 <= i < pushes.len() ==> (#[trigger] pushes[i]).0 > 0,
        bytes_before(pushes, pushes.len() as int) <= u64::MAX,
        0 <= k < pushes.len(),
        bytes_before(pushes, k) <= offset < bytes_before(pushes, k + 1),
    ensures
        ({
            let (w, pts, index) = recorded_all(last.after_reset(), pushes).attributed(offset);
            pts == pushes[k].1 && index == 0
        }),
{
    let v = recorded_all(last.after_reset(), pushes);
    lemma_recorded_all(last.after_reset(), pushes);
    law_attribution(v, offset, k);
    reveal(PushesView::attributed);
}

/// Where no push is known to hold the first byte, there is no pts.
pub proof fn law_no_pts(v: PushesView, offset: int)
    requires
        v.valid(),
        v.chunks.len() == 0 || v.chunks[0].start > offset,
    ensures
        v.attributed(offset).1 == i64::MIN,
        v.attributed(offset).2 == 0,
{
    reveal(PushesView::attributed);
    if v.chunks.len() >= 2 {
        assert(v.chunks[0].start < v.chunks[1].start);
    }
}

/// Where attributing access units at these offsets one by one leads.
pub open spec fn attributed_all(v: PushesView, offsets: Seq<int>) -> PushesView
    decreases offsets.len(),
{
    if offsets.len() == 0 {
        v
    } else {
        attributed_all(v, offsets.drop_last()).attributed(offsets.last()).0
    }
}

/// The offsets at or behind `start`.
pub open spec fn from_on(offsets: Seq<int>, start: int) -> Seq<int> {
    offsets.filter(|o: int| o >= start)
}

/// The record that holds `offset`.
pub open spec fn holds(v: PushesView, k: int, offset: int) -> bool {
    &&& 0 <= k < v.chunks.len()
    &&& v.chunks[k].start <= offset
    &&& k + 1 < v.chunks.len() ==> offset < v.chunks[k + 1].start
}

proof fn lemma_holder(v: PushesView, offset: int, from: int) -> (k: int)
    requires
        0 <= from < v.chunks.len(),
        v.chunks[from].start <= offset,
    ensures
        from <= k,
        holds(v, k, offset),
    decreases v.chunks.len() - from,
{
    if from + 1 < v.chunks.len() && v.chunks[from + 1].start <= offset {
        lemma_holder(v, offset, from + 1)
    } else {
        from
    }
}

proof fn lemma_attributed_valid(v: PushesView, k: int, offset: int)
    requires
        v.valid(),
        holds(v, k, offset),
    ensures
        v.attributed(offset).0.valid(),
        v.attributed(offset).0.next_serial == v.next_serial,
        v.attributed(offset).0.pushed == v.pushed,
{
    law_attribution(v, offset, k);
    reveal(PushesView::attributed);
}

proof fn lemma_attributed_all(v: PushesView, offsets: Seq<int>, k: int)
    requires
        v.valid(),
        v.au_chunk is None,
        offsets.len() > 0,
        offsets.len() <= u32::MAX,
        forall|i: int, j: int|
            0 <= i < j < offsets.len() ==> #[trigger] offsets[i] < #[trigger] offsets[j],
        v.chunks.len() > 0,
        v.chunks[0].start <= offsets[0],
        holds(v, k, offsets.last()),
    ensures
        ({
            let u = attributed_all(v, offsets.drop_last());
            let (w, pts, index) = u.attributed(offsets.last());
            let first = v.chunks[k].start as int;
            &&& w.valid()
            &&& w.chunks == v.chunks.skip(k)
            &&& w.au_chunk == Some(v.chunks[k].serial)
            &&& pts == v.chunks[k].pts
            &&& index == from_on(offsets.drop_last(), first).len()
            &&& w.au_in_chunk == index
        }),
    decreases offsets.len(),
{
    reveal(Seq::filter);
    let init = offsets.drop_last();
    let o = offsets.last();
    let first = v.chunks[k].start as int;
    let u = attributed_all(v, init);
    init.lemma_filter_len(|o: int| o >= first);
    if init.len() == 0 {
        assert(u == v);
        law_attribution(v, o, k);
        lemma_attributed_valid(v, k, o);
        assert(v.attributed(o).2 == 0 && v.attributed(o).0.au_in_chunk == 0) by {
            reveal(PushesView::attributed);
        }
        assert(from_on(init, first).len() == 0);
    } else {
        let q = init.last();
        assert(q == offsets[offsets.len() - 2] && o == offsets[offsets.len() - 1]);
        assert(q < o);
        assert(init[0] == offsets[0]);
        if init.len() > 1 {
            assert(offsets[0] < offsets[init.len() - 1]);
        }
        let m = lemma_holder(v, q, 0);
        assert forall|i: int, j: int| 0 <= i < j < init.len() implies #[trigger] init[i]
            < #[trigger] init[j] by {
            assert(offsets[i] < offsets[j]);
        }
        lemma_attributed_all(v, init, m);
        let earlier = init.drop_last();
        assert(u == attributed_all(v, earlier).attributed(q).0);
        assert(u.chunks == v.chunks.skip(m));
        assert(m <= k) by {
            if m > k {
                if m > k + 1 {
                    assert(v.chunks[k + 1].start < v.chunks[m].start);
                }
            }
        }
        assert(u.chunks[k - m] == v.chunks[k]);
        if k + 1 < v.chunks.len() {
            assert(u.chunks[k - m + 1] == v.chunks[k + 1]);
        }
        assert(holds(u, k - m, o));
        assert(u.chunks.skip(k - m) =~= v.chunks.skip(k));
        law_attribution(u, o, k - m);
        lemma_attributed_valid(u, k - m, o);
        assert(u.chunks[0] == v.chunks[m]);
        let passed = from_on(earlier, v.chunks[m].start as int).len();
        earlier.lemma_filter_len(|o: int| o >= v.chunks[m].start as int);
        law_attribution_counts(u, o);
        if m == k {
            assert(from_on(init, first) =~= from_on(earlier, first).push(q));
        } else {
            assert(v.chunks[m].serial < v.chunks[k].serial);
            if m + 1 < k {
                assert(v.chunks[m + 1].start < v.chunks[k].start);
            }
            assert(q < first);
            assert forall|i: int| 0 <= i < init.len() implies #[trigger] init[i] < first by {
                if i < init.len() - 1 {
                    assert(offsets[i] < offsets[init.len() - 1]);
                }
            }
            lemma_none_from(init, first);
        }
    }
}

proof fn lemma_none_from(offsets: Seq<int>, start: int)
    requires
        forall|i: int| 0 <= i < offsets.len() ==> #[trigger] offsets[i] < start,
    ensures
        from_on(offsets, start).len() == 0,
    decreases offsets.len(),
{
    reveal(Seq::filter);
    if offsets.len() > 0 {
        assert forall|i: int| 0 <= i < offsets.drop_last().len() implies (
        #[trigger] offsets.drop_last()[i]) < start by {
            assert(offsets.drop_last()[i] == offsets[i]);
        }
        lemma_none_from(offsets.drop_last(), start);
    }
}

/// Of access units at rising offsets, each is given the pts of the push that holds its first byte,
/// and as its index the number of those before it that began in the same push.
pub proof fn law_index_in_push(v: PushesView, offsets: Seq<int>, k: int)
    requires
        v.valid(),
        v.au_chunk is None,
        offsets.len() > 0,
        offsets.len() <= u32::MAX,
        forall|i: int, j: int|
            0 <= i < j < offsets.len() ==> #[trigger] offsets[i] < #[trigger] offsets[j],
        v.chunks.len() > 0,
        v.chunks[0].start <= offsets[0],
        holds(v, k, offsets.last()),
    ensures
        ({
            let before = offsets.drop_last();
            let (_, pts, index) = attributed_all(v, before).attributed(offsets.last());
            &&& pts == v.chunks[k].pts
            &&& index == before.filter(|o: int| o >= v.chunks[k].start).len()
        }),
{
    lemma_attributed_all(v, offsets, k);
    assert(from_on(offsets.drop_last(), v.chunks[k].start as int) == offsets.drop_last().filter(
        |o: int| o >= v.chunks[k].start,
    )) by {
        lemma_same_filter(
            offsets.drop_last(),
            |o: int| o >= v.chunks[k].start as int,
            |o: int| o >= v.chunks[k].start,
        );
    }
}

proof fn lemma_same_filter(s: Seq<int>, f: spec_fn(int) -> bool, g: spec_fn(int) -> bool)
    requires
        forall|o: int| #[trigger] f(o) == g(o),
    ensures
        s.filter(f) == s.filter(g),
    decreases s.len(),
{
    reveal(Seq::filter);
    if s.len() > 0 {
        lemma_same_filter(s.drop_last(), f, g);
        assert(f(s.last()) == g(s.last()));
    }
}

/// A push that fits is appended to what is pending, counted, and recorded; nothing else changes.
/// One that would take the bytes pending beyond 8 MiB is refused, and one of nothing accepted;
/// neither changes anything.
pub proof fn law_push(v: EngineView, data: Seq<u8>, pts: i64)
    requires
        v.valid(),
        v.has_room(data.len() as int),
    ensures
        ({
            let (w, status) = v.after_push(data, pts);
            if data.len() == 0 {
                status == 0 && w == v
            } else if v.framer.pending.len() + data.len() > 8 * 1024 * 1024 {
                status == -4 && w == v
            } else {
                &&& status == 0
                &&& w.framer == (FramerView { pending: v.framer.pending + data, ..v.framer })
                &&& w.pushes == v.pushes.recorded(data.len() as int, pts)
                &&& w.stats.bytes_pushed == v.stats.bytes_pushed + data.len()
                &&& w == (EngineView {
                    framer: w.framer,
                    pushes: w.pushes,
                    stats: Stats { bytes_pushed: w.stats.bytes_pushed, ..v.stats },
                    ..v
                })
            }
        }),
{
}

/// Whether damage that the framer met on its way from `v` to `f` shows in `w`: it is counted and
/// reported, and decoding restarts, unless a major sync is waited for already. Without damage
/// nothing of that changes.
pub open spec fn shows_damage(v: EngineView, f: FramerView, w: EngineView) -> bool {
    if f.sync_errors == v.framer.sync_errors {
        &&& w.last_error == v.last_error
        &&& w.waiting_for_sync == v.waiting_for_sync
        &&& w.restart_codec == v.restart_codec
        &&& w.pending_flags == v.pending_flags
        &&& w.objects == v.objects
        &&& w.stats.sync_errors == v.stats.sync_errors
    } else {
        &&& w.last_error
            == "bitstream damage: access units failed their checks; resynchronised at a major sync"@
        &&& w.waiting_for_sync
        &&& w.stats.sync_errors == v.stats.sync_errors + f.sync_errors - v.framer.sync_errors
        &&& v.waiting_for_sync ==> w.restart_codec == v.restart_codec && w.pending_flags
            == v.pending_flags && w.objects == v.objects
        &&& !v.waiting_for_sync ==> {
            &&& w.restart_codec
            &&& w.pending_flags == 1
            &&& !w.objects.have_state
            &&& w.objects.pending.len() == 0
            &&& w.objects.warp_mode == -1
        }
    }
}

/// Whether `w` is `v` but for the framer's progress to `f`, the attribution of an access unit, and
/// damage met on the way.
pub open spec fn went_on(v: EngineView, f: FramerView, w: EngineView) -> bool {
    &&& w.framer == f
    &&& shows_damage(v, f, w)
    &&& w.selection == v.selection
    &&& w.desc == v.desc
    &&& w.sync_signature == v.sync_signature
    &&& w.resolved == v.resolved
    &&& w.required == v.required
    &&& w.set_required == v.set_required
    &&& w.oamd_seen == v.oamd_seen
    &&& w.sample_position == v.sample_position
    &&& w.roles == v.roles
    &&& w.layout_serial == v.layout_serial
    &&& w.poisoned == v.poisoned
    &&& w.stats == (Stats {
        sync_errors: w.stats.sync_errors,
        access_units_skipped: w.stats.access_units_skipped,
        ..v.stats
    })
}

/// Whether a configuration is the one decoding is set up for.
pub open spec fn set_up_for(v: EngineView, data: Seq<u8>) -> bool {
    v.desc is Some && signature(data) == Some(v.sync_signature)
}

proof fn lemma_damage_text()
    ensures
        without_nul(
            "bitstream damage: access units failed their checks; resynchronised at a major sync"@,
        )
            == "bitstream damage: access units failed their checks; resynchronised at a major sync"@,
{
    let text =
        "bitstream damage: access units failed their checks; resynchronised at a major sync"@;
    reveal_strlit(
        "bitstream damage: access units failed their checks; resynchronised at a major sync",
    );
    assert(without_nul(text) =~= text);
}

/// While the framer needs more bytes, so does the engine.
pub proof fn law_pull_waits(v: EngineView)
    requires
        v.valid(),
        v.unit is None,
        v.probing is None,
        v.framer.next().1 is NeedData,
    ensures
        ({
            let (w, action) = v.advanced();
            &&& action is NeedMoreData
            &&& went_on(v, v.framer.next().0, w)
            &&& w.stats.access_units_skipped == v.stats.access_units_skipped
            &&& w.pushes == v.pushes
            &&& w.unit is None
            &&& w.probing is None
        }),
{
    lemma_discontinuity();
    lemma_damage_text();
    lemma_errors_grow(v.framer);
    law_step(v.framer);
}

/// An access unit for decoding, where none is waited for or it has the major sync that is, is taken
/// up with its bytes and the pts of its push. It is probed first if it has a major sync whose
/// configuration is not the one decoding is set up for.
pub proof fn law_pull_takes_up(v: EngineView, f: FramerView, info: AuInfo, data: Seq<u8>)
    requires
        v.valid(),
        v.unit is None,
        v.probing is None,
        v.framer.next() == (f, NextView::Au(info, data)),
        !v.waiting_for_sync || info.major_sync,
    ensures
        ({
            let (w, action) = v.advanced();
            let (pushes, pts, pts_au_index) = v.pushes.attributed(info.offset as int);
            &&& went_on(v, f, w)
            &&& w.stats.access_units_skipped == v.stats.access_units_skipped
            &&& w.pushes == pushes
            &&& w.unit == Some(UnitView { info, pts, pts_au_index, data })
            &&& info.major_sync && !set_up_for(v, data) ==> action is Probe && w.probing is Some
                && w.probing == signature(data)
            &&& !info.major_sync || set_up_for(v, data) ==> action is Decode && w.probing is None
        }),
{
    lemma_discontinuity();
    lemma_damage_text();
    lemma_errors_grow(v.framer);
    law_step(v.framer);
    lemma_major_is_checked(v.framer);
    if f.sync_errors > v.framer.sync_errors {
        law_sync_comes_first(v.framer);
    }
    if info.major_sync {
        assert(signature(data) is Some);
        let s = data.subrange(4, 8);
        assert(s[0] == data[4] && s[1] == data[5]);
        assert(data[4] == 0xF8 && data[5] == 0x72);
    }
}

/// An access unit that is only counted, or that comes while a major sync is waited for and has
/// none, is skipped: counted, attributed to its push, and the engine goes on to the next.
pub proof fn law_pull_skips(v: EngineView)
    requires
        v.valid(),
        v.unit is None,
        v.probing is None,
        v.framer.next().1 is Skipped || (v.framer.next().1 is Au && v.waiting_for_sync && !info_of(
            v.framer.next().1,
        ).major_sync),
    ensures
        exists|u: EngineView|
            {
                &&& went_on(v, v.framer.next().0, u)
                &&& u.stats.access_units_skipped == v.stats.access_units_skipped + 1
                &&& u.pushes == v.pushes.attributed(info_of(v.framer.next().1).offset as int).0
                &&& u.unit is None
                &&& u.probing is None
                &&& v.advanced() == #[trigger] u.advanced()
            },
{
    lemma_discontinuity();
    lemma_damage_text();
    lemma_errors_grow(v.framer);
    law_step(v.framer);
    lemma_step(v);
    let u = v.stepped().0;
    assert(v.stepped().1 is None);
    assert(v.advanced() == u.advanced());
    assert(v.stats.access_units_skipped < u64::MAX);
    assert(went_on(v, v.framer.next().0, u));
}

/// A new engine has seen nothing: it waits for a major sync, and its first block, at frame 0, is
/// flagged as a discontinuity.
pub proof fn law_new(selection: i32)
    ensures
        ({
            let v = EngineView::fresh(selection);
            &&& v.selection == selection
            &&& v.framer.pending.len() == 0
            &&& v.framer.consumed == 0
            &&& v.framer.ordinal == 0
            &&& v.framer.queued.len() == 0
            &&& v.framer.lock == (Lock::Seeking { scan: 0, after_damage: false })
            &&& !v.framer.estimated
            &&& v.framer.sync_errors == 0
            &&& v.framer.skipped_bytes == 0
            &&& v.framer.framed_aus == 0
            &&& v.framer.framed_bytes == 0
            &&& v.pushes.chunks.len() == 0
            &&& v.pushes.pushed == 0
            &&& v.pushes.au_chunk is None
            &&& v.waiting_for_sync
            &&& v.sync_signature.len() == 0
            &&& v.desc is None
            &&& v.roles is None
            &&& v.layout_serial == 0
            &&& v.sample_position == 0
            &&& v.pending_flags == 1
            &&& !v.objects.have_state
            &&& v.objects.layout is None
            &&& v.objects.pending.len() == 0
            &&& v.objects.warp_mode == -1
            &&& v.stats.bytes_pushed == 0 && v.stats.access_units_decoded == 0
                && v.stats.blocks_output == 0 && v.stats.frames_output == 0
                && v.stats.access_units_skipped == 0 && v.stats.duplicate_access_units == 0
                && v.stats.decode_errors == 0 && v.stats.sync_errors == 0
                && v.stats.oamd_payloads == 0 && v.stats.oamd_errors == 0
                && v.stats.metadata_updates == 0
            &&& v.last_error.len() == 0
            &&& !v.oamd_seen
            &&& !v.poisoned
            &&& v.unit is None
            &&& v.probing is None
            &&& !v.restart_codec
            &&& !v.set_required
            &&& v.valid()
        }),
{
}

/// A reset forgets all input and everything about where decoding was, and keeps what the stream is:
/// the next byte is the first, the next block starts at frame 0 with a discontinuity, the parser
/// and decoder restart, and no metadata wait or stand.
pub proof fn law_reset(v: EngineView)
    requires
        v.valid(),
    ensures
        ({
            let w = v.after_reset();
            &&& w.framer.pending.len() == 0
            &&& w.framer.consumed == 0
            &&& w.framer.ordinal == 0
            &&& w.framer.queued.len() == 0
            &&& w.framer.lock == (Lock::Seeking { scan: 0, after_damage: false })
            &&& !w.framer.estimated
            &&& w.framer.sync_errors == 0
            &&& w.framer.skipped_bytes == 0
            &&& w.framer.substreams == v.framer.substreams
            &&& w.framer.framed_aus == v.framer.framed_aus
            &&& w.framer.framed_bytes == v.framer.framed_bytes
            &&& w.pushes.chunks.len() == 0
            &&& w.pushes.pushed == 0
            &&& w.pushes.au_chunk is None
            &&& w.pushes.next_serial == v.pushes.next_serial
            &&& w.waiting_for_sync
            &&& w.restart_codec
            &&& w.pending_flags == 1
            &&& !w.objects.have_state
            &&& w.objects.layout is None
            &&& w.objects.pending.len() == 0
            &&& w.objects.warp_mode == -1
            &&& !w.oamd_seen
            &&& w.sample_position == 0
            &&& w.stats.bytes_pushed == 0 && w.stats.access_units_decoded == 0
                && w.stats.blocks_output == 0 && w.stats.frames_output == 0
                && w.stats.access_units_skipped == 0 && w.stats.duplicate_access_units == 0
                && w.stats.decode_errors == 0 && w.stats.sync_errors == 0
                && w.stats.oamd_payloads == 0 && w.stats.oamd_errors == 0
                && w.stats.metadata_updates == 0
            &&& w.last_error.len() == 0
            &&& !w.poisoned
            &&& w.unit is None
            &&& w.probing is None
            &&& w.selection == v.selection
            &&& w.desc == v.desc
            &&& w.sync_signature == v.sync_signature
            &&& w.resolved == v.resolved
            &&& w.required == v.required
            &&& w.set_required == v.set_required
            &&& w.roles == v.roles
            &&& w.layout_serial == v.layout_serial
        }),
{
    lemma_discontinuity();
}

/// Selecting another presentation takes effect at the next major sync, which is probed whatever it
/// states: decoding restarts there with a discontinuity, and the metadata so far are forgotten. The
/// input, the counts and the layout serial go on.
pub proof fn law_select(v: EngineView, selection: i32)
    requires
        v.valid(),
    ensures
        ({
            let w = v.with_selection(selection);
            &&& w.selection == selection
            &&& w.sync_signature.len() == 0
            &&& w.waiting_for_sync
            &&& w.restart_codec
            &&& w.pending_flags == 1
            &&& !w.objects.have_state
            &&& w.objects.pending.len() == 0
            &&& w.framer == v.framer
            &&& w.pushes == v.pushes
            &&& w.desc == v.desc
            &&& w.resolved == v.resolved
            &&& w.required == v.required
            &&& w.set_required == v.set_required
            &&& w.sample_position == v.sample_position
            &&& w.roles == v.roles
            &&& w.layout_serial == v.layout_serial
            &&& w.stats == v.stats
            &&& w.last_error == v.last_error
            &&& w.poisoned == v.poisoned
            &&& w.oamd_seen == v.oamd_seen
            &&& w.unit == v.unit
            &&& w.probing == v.probing
        }),
{
    lemma_discontinuity();
}

} // verus!
