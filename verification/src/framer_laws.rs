//! What the framer promises over whole runs: exact counts and offsets, and independence of how
//! the input was cut into pushes.

use crate::chain::{
    chains, first_chain, lemma_chain_tiles, lemma_first_chain, lemma_tiles_lens,
    lemma_total_concat, tiles, total, unit_lens,
};
use crate::estimate::lemma_estimate_bound;
use crate::framer::{
    check, find_sync, lemma_chain_back, lemma_find_sync, lemma_find_sync_is, lemma_lock_irrelevant,
    lemma_sync_ready, lemma_sync_substreams, lemma_take_unit, lemma_total_nonneg, ready,
    sync_candidate, AuInfo, Check, FramerView, Lock, NextView, MAX_RETAINED, MAX_STREAM_BYTES,
    SCAN_KEEP,
};
use crate::header::{
    directory_end, header_parity, major_sync, opens_major_sync, stated_len, sync_info_len,
    MAX_AU_LEN, MIN_AU_LEN,
};
use vstd::prelude::*;

verus! {

/// One step of a run.
pub enum Op {
    Push(Seq<u8>),
    Next,
}

/// All bytes pushed in a run.
pub open spec fn pushed(ops: Seq<Op>) -> Seq<u8>
    decreases ops.len(),
{
    if ops.len() == 0 {
        Seq::empty()
    } else {
        let before = pushed(ops.drop_last());
        match ops.last() {
            Op::Push(data) => before + data,
            Op::Next => before,
        }
    }
}

/// Where a run leads, and the access units handed out in it.
pub open spec fn run(v: FramerView, ops: Seq<Op>) -> (FramerView, Seq<NextView>)
    decreases ops.len(),
{
    if ops.len() == 0 {
        (v, Seq::empty())
    } else {
        let (w, units) = run(v, ops.drop_last());
        match ops.last() {
            Op::Push(data) => (w.after_push(data), units),
            Op::Next => {
                let (x, r) = w.next();
                (x, if r is NeedData { units } else { units.push(r) })
            },
        }
    }
}

/// What is known of an access unit that was handed out.
pub open spec fn info_of(r: NextView) -> AuInfo {
    match r {
        NextView::Au(info, _) => info,
        NextView::Skipped(info) => info,
        NextView::NeedData => arbitrary(),
    }
}

/// What a step from `v` to `w` that hands out `r` accounts for.
pub open spec fn accounted(v: FramerView, w: FramerView, r: NextView) -> bool {
    let used = w.consumed - v.consumed;
    let framed = w.framed_bytes - v.framed_bytes;
    let skipped = w.skipped_bytes - v.skipped_bytes;
    // What is consumed is the front of the pending bytes, framed or skipped.
    &&& 0 <= used <= v.pending.len()
    &&& w.pending == v.pending.skip(used)
    &&& framed >= 0
    &&& skipped >= 0
    &&& used == framed + skipped
    &&& r is NeedData <==> framed == 0
    &&& w.framed_aus == v.framed_aus + (if r is NeedData {
        0int
    } else {
        1
    })
    // The access unit handed out is the last thing consumed.
    &&& !(r is NeedData) ==> {
        &&& framed >= MIN_AU_LEN
        &&& info_of(r).offset == w.consumed - framed
        &&& info_of(r).ordinal == w.ordinal - 1
        &&& info_of(r).ordinal >= v.ordinal
    }
    &&& r matches NextView::Au(info, bytes) ==> {
        &&& bytes == v.pending.subrange(used - framed, used)
        &&& stated_len(bytes) == framed
    }
    // Ordinals are exact unless flagged.
    &&& v.estimated ==> w.estimated
    &&& v.ordinal <= w.ordinal
    &&& !w.estimated ==> w.ordinal == v.ordinal + (if r is NeedData {
        0int
    } else {
        1
    })
    // Unless flagged, what is skipped is the tail of an access unit before the first byte.
    &&& !w.estimated && skipped > 0 ==> {
        &&& skipped <= MAX_AU_LEN
        &&& before_first_sync(v)
        &&& !before_first_sync(w)
    }
    &&& before_first_sync(w) ==> before_first_sync(v)
}

/// Whether no major sync has been accepted, and none lost, since creation or reset.
pub open spec fn before_first_sync(v: FramerView) -> bool {
    v.lock matches Lock::Seeking { after_damage, .. } && !after_damage
}

proof fn lemma_sought(v: FramerView, scan: int, after_damage: bool)
    requires
        v.consistent(),
        v.lock == (Lock::Seeking { scan, after_damage }),
        0 <= v.sync_errors <= v.consumed + (if after_damage {
            1int
        } else {
            0
        }),
    ensures
        v.next_sought(scan, after_damage).0.valid(),
        accounted(
            v,
            v.next_sought(scan, after_damage).0,
            v.next_sought(scan, after_damage).1,
        ),
{
    lemma_find_sync(v.pending, scan);
    let (w, found) = v.seek(scan, after_damage);
    match find_sync(v.pending, scan) {
        None => {
            let len = v.pending.len();
            let resume: int = if len - SCAN_KEEP > scan { len - SCAN_KEEP } else { scan };
            if resume > MAX_RETAINED {
                lemma_estimate_bound(resume as nat, v.framed_aus as nat, v.framed_bytes as nat);
            } else {
                assert(v.pending.skip(0) =~= v.pending);
            }
        },
        Some(c) => {
            let b = v.pending.skip(c);
            if let Some(Some(substreams)) = major_sync(b) {
                lemma_sync_ready(b);
                let u = FramerView { substreams, ..v };
                lemma_chain_back(u, c, after_damage);
                lemma_chain_accounts(u, c, after_damage);
                lemma_unit_accounts(v, w);
            } else {
                assert(v.pending.skip(0) =~= v.pending);
            }
        },
    }
}

/// Chaining back consumes only a fragment in front of the chain.
proof fn lemma_chain_accounts(v: FramerView, sync: int, after_damage: bool)
    requires
        v.valid(),
        0 <= sync <= v.pending.len(),
    ensures
        ({
            let w = v.chain_back(sync, after_damage);
            let used = w.consumed - v.consumed;
            &&& 0 <= used <= sync
            &&& w.pending == v.pending.skip(used)
            &&& w.framed_bytes == v.framed_bytes
            &&& w.framed_aus == v.framed_aus
            &&& w.skipped_bytes == v.skipped_bytes + used
            &&& v.estimated ==> w.estimated
            &&& v.ordinal <= w.ordinal
            &&& !w.estimated ==> w.ordinal == v.ordinal
            &&& !w.estimated && used > 0 ==> used <= MAX_AU_LEN && !after_damage
            &&& w.substreams == v.substreams
        }),
{
    let region = v.pending.take(sync);
    lemma_first_chain(region, 0, v.substreams as nat);
    assert(v.pending.skip(0) =~= v.pending);
}

/// From a locked framer that has a queue, or a whole major sync at its front, one access unit
/// is handed out.
proof fn lemma_unit_accounts(v: FramerView, w: FramerView)
    requires
        w.consistent(),
        0 <= w.sync_errors <= w.consumed + 1,
        w.lock is Locked,
        w.queued.len() == 0 ==> ready(w.pending, w.substreams),
        v.valid(),
        before_first_sync(v) || v.damaged(),
        0 <= w.consumed - v.consumed <= v.pending.len(),
        w.pending == v.pending.skip(w.consumed - v.consumed),
        w.framed_bytes == v.framed_bytes,
        w.framed_aus == v.framed_aus,
        w.skipped_bytes == v.skipped_bytes + (w.consumed - v.consumed),
        v.estimated ==> w.estimated,
        v.ordinal <= w.ordinal,
        !w.estimated ==> w.ordinal == v.ordinal,
        !w.estimated && w.consumed > v.consumed ==> w.consumed - v.consumed <= MAX_AU_LEN
            && before_first_sync(v),
    ensures
        ({
            let (x, r) = if w.queued.len() > 0 {
                w.next_queued()
            } else {
                w.next_checked(stated_len(w.pending), true)
            };
            x.valid() && accounted(v, x, r)
        }),
{
    let used = w.consumed - v.consumed;
    if w.queued.len() > 0 {
        let len = w.queued[0] as int;
        assert(w.queued.skip(1) =~= w.queued.drop_first());
        lemma_total_nonneg(w.queued.skip(1));
        lemma_take_unit(w, len, w.substreams, w.queued.skip(1));
        assert(w.pending.skip(len) =~= v.pending.skip(used + len));
    } else {
        let len = stated_len(w.pending);
        lemma_take_unit(w, len, w.substreams, w.queued);
        assert(w.pending.skip(len) =~= v.pending.skip(used + len));
        assert(w.pending.take(len) =~= v.pending.subrange(used, used + len));
        assert(w.pending.take(len)[0] == w.pending[0]);
        assert(w.pending.take(len)[1] == w.pending[1]);
    }
}

/// One step keeps a framer valid and accounts for every byte and every access unit.
pub proof fn law_step(v: FramerView)
    requires
        v.valid(),
    ensures
        v.next().0.valid(),
        accounted(v, v.next().0, v.next().1),
{
    reveal(FramerView::next);
    assert(v.pending.skip(0) =~= v.pending);
    if v.queued.len() > 0 {
        lemma_total_nonneg(v.queued.skip(1));
        assert(v.queued.skip(1) =~= v.queued.drop_first());
        lemma_take_unit(v, v.queued[0] as int, v.substreams, v.queued.skip(1));
    } else {
        match v.lock {
            Lock::Seeking { scan, after_damage } => {
                lemma_sought(v, scan, after_damage);
            },
            Lock::Locked => {
                lemma_sync_substreams(v.pending);
                match check(v.pending, v.substreams as nat) {
                    Check::Valid { len, major } => {
                        lemma_take_unit(
                            v,
                            len as int,
                            v.next_checked(len as int, major).0.substreams,
                            v.queued,
                        );
                        let bytes = v.pending.take(len as int);
                        assert(bytes =~= v.pending.subrange(0, len as int));
                        assert(bytes[0] == v.pending[0]);
                        assert(bytes[1] == v.pending[1]);
                    },
                    Check::NeedData => {},
                    Check::Invalid => {
                        let u = FramerView { sync_errors: v.sync_errors + 1, ..v };
                        let w = FramerView {
                            lock: Lock::Seeking { scan: 1, after_damage: true },
                            ..u
                        };
                        lemma_lock_irrelevant(u, w, 1, true);
                        lemma_sought(w, 1, true);
                    },
                }
            },
        }
    }
}

/// Sync errors are never taken back.
pub proof fn lemma_errors_grow(v: FramerView)
    ensures
        v.sync_errors <= v.next().0.sync_errors,
{
    reveal(FramerView::next);
}

/// What holds after any run that started from a reset (or fresh) framer.
pub open spec fn run_accounted(
    start: FramerView,
    stream: Seq<u8>,
    v: FramerView,
    units: Seq<NextView>,
) -> bool {
    // Every byte pushed is pending, skipped, or in exactly one access unit.
    &&& v.consumed + v.pending.len() == stream.len()
    &&& v.pending == stream.skip(v.consumed)
    &&& v.consumed == v.skipped_bytes + (v.framed_bytes - start.framed_bytes)
    // Every access unit carries the bytes of the stream at its offset.
    &&& forall|i: int|
        0 <= i < units.len() ==> match #[trigger] units[i] {
            NextView::Au(info, bytes) => {
                &&& bytes.len() >= MIN_AU_LEN
                &&& info.offset + bytes.len() <= v.consumed
                &&& bytes == stream.subrange(info.offset as int, info.offset + bytes.len())
            },
            NextView::Skipped(info) => info.offset < v.consumed,
            NextView::NeedData => false,
        }
    // Access units come in stream order, no ordinal twice.
    &&& forall|i: int, j: int|
        0 <= i < j < units.len() ==> {
            &&& info_of(#[trigger] units[i]).offset < info_of(#[trigger] units[j]).offset
            &&& info_of(units[i]).ordinal < info_of(units[j]).ordinal
        }
    &&& forall|i: int| 0 <= i < units.len() ==> info_of(#[trigger] units[i]).ordinal < v.ordinal
    // Unless flagged, the count is exact: only a fragment of one access unit is left out.
    &&& !v.estimated ==> {
        &&& v.ordinal == units.len()
        &&& forall|i: int| 0 <= i < units.len() ==> info_of(#[trigger] units[i]).ordinal == i
        &&& v.skipped_bytes <= MAX_AU_LEN
        &&& before_first_sync(v) ==> v.skipped_bytes == 0
    }
}

proof fn lemma_run_push(
    start: FramerView,
    early: Seq<u8>,
    w: FramerView,
    had: Seq<NextView>,
    data: Seq<u8>,
)
    requires
        w.consumed >= 0,
        run_accounted(start, early, w, had),
    ensures
        run_accounted(start, early + data, w.after_push(data), had),
{
    let stream = early + data;
    let v = w.after_push(data);
    assert(v.pending =~= stream.skip(v.consumed));
    assert forall|i: int| 0 <= i < had.len() implies match #[trigger] had[i] {
        NextView::Au(info, bytes) => {
            &&& bytes.len() >= MIN_AU_LEN
            &&& info.offset + bytes.len() <= v.consumed
            &&& bytes == stream.subrange(info.offset as int, info.offset + bytes.len())
        },
        NextView::Skipped(info) => info.offset < v.consumed,
        NextView::NeedData => false,
    } by {
        if let NextView::Au(info, bytes) = had[i] {
            let o = info.offset as int;
            assert(early.subrange(o, o + bytes.len()) =~= stream.subrange(o, o + bytes.len()));
        }
    }
}

proof fn lemma_run_next(
    start: FramerView,
    stream: Seq<u8>,
    w: FramerView,
    had: Seq<NextView>,
    v: FramerView,
    r: NextView,
)
    requires
        w.consumed >= 0,
        run_accounted(start, stream, w, had),
        accounted(w, v, r),
    ensures
        run_accounted(
            start,
            stream,
            v,
            if r is NeedData {
                had
            } else {
                had.push(r)
            },
        ),
{
    let used = v.consumed - w.consumed;
    let framed = v.framed_bytes - w.framed_bytes;
    assert(w.pending.skip(used) =~= stream.skip(v.consumed));
    if let NextView::Au(info, bytes) = r {
        assert(w.pending.subrange(used - framed, used) =~= stream.subrange(
            v.consumed - framed,
            v.consumed,
        ));
    }
    let units = if r is NeedData {
        had
    } else {
        had.push(r)
    };
    assert forall|i: int| 0 <= i < units.len() implies info_of(#[trigger] units[i]).ordinal
        < v.ordinal && (i < had.len() ==> info_of(units[i]).offset < w.consumed) by {
        if i < had.len() {
            assert(units[i] == had[i]);
        }
    }
    assert forall|i: int, j: int| 0 <= i < j < units.len() implies info_of(
        #[trigger] units[i],
    ).offset < info_of(#[trigger] units[j]).offset && info_of(units[i]).ordinal < info_of(
        units[j],
    ).ordinal by {
        assert(units[i] == had[i]);
        if j < had.len() {
            assert(units[j] == had[j]);
        }
    }
}

/// Over any run of pushes and steps from a reset framer, every byte is accounted for, access
/// units come in stream order with the bytes at their offsets, and unless the framer flags its
/// count as estimated every access unit has its exact ordinal.
pub proof fn law_run(last: FramerView, ops: Seq<Op>)
    requires
        last.valid(),
        last.framed_bytes + pushed(ops).len() <= MAX_STREAM_BYTES,
    ensures
        ({
            let (v, units) = run(last.after_reset(), ops);
            &&& v.valid()
            &&& run_accounted(last.after_reset(), pushed(ops), v, units)
        }),
    decreases ops.len(),
{
    let start = last.after_reset();
    if ops.len() == 0 {
        assert(start.pending =~= pushed(ops).skip(0));
    } else {
        let (w, had) = run(start, ops.drop_last());
        let early = pushed(ops.drop_last());
        law_run(last, ops.drop_last());
        match ops.last() {
            Op::Push(data) => {
                lemma_run_push(start, early, w, had, data);
            },
            Op::Next => {
                law_step(w);
                lemma_run_next(start, early, w, had, w.next().0, w.next().1);
            },
        }
    }
}

/// When the search locks, the access units queued lead exactly onto the major sync it found: the
/// first candidate that was not rejected. Those recovered by chaining back start at the earliest
/// position from which valid access units lead there.
pub proof fn law_lock(v: FramerView, scan: int, after_damage: bool)
    requires
        v.valid(),
        v.lock == (Lock::Seeking { scan, after_damage }),
        v.seek(scan, after_damage).1,
    ensures
        ({
            let w = v.seek(scan, after_damage).0;
            let c = find_sync(v.pending, scan)->0;
            let region = v.pending.take(c);
            let first = first_chain(region, 0, w.substreams as nat);
            &&& find_sync(v.pending, scan) is Some
            &&& w.lock is Locked
            &&& major_sync(v.pending.skip(c)) == Some(Some(w.substreams))
            &&& w.pending.skip(total(w.queued)) == v.pending.skip(c)
            &&& total(unit_lens(region, first)) == c - first
            &&& forall|p: int| 0 <= p < first ==> !#[trigger] chains(region, p, w.substreams as nat)
        }),
{
    lemma_find_sync(v.pending, scan);
    let c = find_sync(v.pending, scan)->0;
    let substreams = major_sync(v.pending.skip(c)).unwrap().unwrap();
    let u = FramerView { substreams, ..v };
    let region = v.pending.take(c);
    let subs = substreams as nat;
    let first = first_chain(region, 0, subs);
    let front = region.take(first);
    let w = v.seek(scan, after_damage).0;
    lemma_first_chain(region, 0, subs);
    if first < c {
        lemma_chain_tiles(region, first, subs);
    }
    lemma_tiles_lens(region, first);
    if first > 0 && tiles(front, 0) {
        lemma_tiles_lens(front, 0);
        lemma_total_concat(unit_lens(front, 0), unit_lens(region, first));
    }
    assert(w.pending.skip(total(w.queued)) =~= v.pending.skip(c));
}

/// Whether a checked major sync stands behind whatever the framer still reports as skipped, or is
/// being looked for.
pub open spec fn sync_comes_first(v: FramerView) -> bool {
    match v.lock {
        Lock::Seeking { .. } => true,
        Lock::Locked => {
            let b = v.pending.skip(total(v.queued));
            opens_major_sync(b) && major_sync(b) matches Some(Some(_))
        },
    }
}

/// Whether `r` is no access unit for decoding, or one with a major sync that passed its checks.
pub open spec fn skipped_or_sync(r: NextView) -> bool {
    r matches NextView::Au(info, bytes) ==> {
        &&& info.major_sync
        &&& opens_major_sync(bytes)
        &&& major_sync(bytes) matches Some(Some(_))
    }
}

/// The major sync access unit at the start of `b`, cut out, is the same major sync.
proof fn lemma_sync_cut(b: Seq<u8>)
    requires
        opens_major_sync(b),
        major_sync(b) matches Some(Some(_)),
    ensures
        ({
            let u = b.take(stated_len(b));
            opens_major_sync(u) && major_sync(u) == major_sync(b)
        }),
{
    let len = stated_len(b);
    let u = b.take(len);
    let more = b.skip(len);
    assert(b =~= u + more);
    lemma_opens_grows(u, more);
    assert(sync_info_len(u) == sync_info_len(b)) by {
        assert(u[7] == b[7] && u[29] == b[29] && u[30] == b[30]);
    }
    let info = sync_info_len(b)->0;
    assert(u[4 + info] == b[4 + info] && u[5 + info] == b[5 + info] && u[20] == b[20]);
    assert(u.subrange(4, 4 + info) =~= b.subrange(4, 4 + info));
    assert(u.subrange(0, len) =~= b.subrange(0, len));
}

/// When the search locks, the major sync it found stands behind the queue.
proof fn lemma_lock_sync(v: FramerView, scan: int, after_damage: bool)
    requires
        v.valid(),
        v.lock == (Lock::Seeking { scan, after_damage }),
        v.seek(scan, after_damage).1,
    ensures
        ({
            let x = v.seek(scan, after_damage).0;
            &&& x.lock is Locked
            &&& sync_comes_first(x)
            &&& total(x.queued) <= x.pending.len()
        }),
{
    law_lock(v, scan, after_damage);
    lemma_find_sync(v.pending, scan);
    let c = find_sync(v.pending, scan)->0;
    assert(sync_candidate(v.pending, c));
    lemma_sync_ready(v.pending.skip(c));
    let x = v.seek(scan, after_damage).0;
    lemma_chain_back(FramerView { substreams: x.substreams, ..v }, c, after_damage);
}

/// From a locked framer with the major sync behind its queue, the next thing out is of the queue
/// or that major sync.
proof fn lemma_locked_sync(x: FramerView)
    requires
        x.lock is Locked,
        sync_comes_first(x),
        total(x.queued) <= x.pending.len(),
    ensures
        x.queued.len() > 0 ==> sync_comes_first(x.next_queued().0),
        x.queued.len() == 0 ==> skipped_or_sync(x.next_checked(stated_len(x.pending), true).1),
{
    if x.queued.len() > 0 {
        let len = x.queued[0] as int;
        assert(x.queued.skip(1) =~= x.queued.drop_first());
        lemma_total_nonneg(x.queued.skip(1));
        assert(x.pending.skip(len).skip(total(x.queued.skip(1))) =~= x.pending.skip(
            total(x.queued),
        ));
    } else {
        assert(x.pending.skip(0) =~= x.pending);
        lemma_sync_cut(x.pending);
    }
}

proof fn lemma_sought_sync(v: FramerView, scan: int, after_damage: bool)
    requires
        v.valid(),
        v.lock == (Lock::Seeking { scan, after_damage }),
    ensures
        ({
            let (w, r) = v.next_sought(scan, after_damage);
            &&& skipped_or_sync(r)
            &&& !(r is Au) ==> sync_comes_first(w)
        }),
{
    let (x, found) = v.seek(scan, after_damage);
    if found {
        lemma_lock_sync(v, scan, after_damage);
        lemma_locked_sync(x);
    }
}

/// Where a major sync is being looked for, or found and not handed out yet, what is handed out
/// next is skipped, or is that major sync, checked. So it stays until it was handed out. The same
/// holds of a step that meets damage.
pub proof fn law_sync_comes_first(v: FramerView)
    requires
        v.valid(),
        sync_comes_first(v) || v.next().0.sync_errors > v.sync_errors,
    ensures
        skipped_or_sync(v.next().1),
        !(v.next().1 is Au) ==> sync_comes_first(v.next().0),
{
    reveal(FramerView::next);
    if v.queued.len() > 0 {
        lemma_locked_sync(v);
    } else {
        match v.lock {
            Lock::Seeking { scan, after_damage } => {
                lemma_sought_sync(v, scan, after_damage);
            },
            Lock::Locked => {
                assert(v.pending.skip(0) =~= v.pending);
                match check(v.pending, v.substreams as nat) {
                    Check::Valid { len, major } => {
                        lemma_sync_cut(v.pending);
                    },
                    Check::NeedData => {},
                    Check::Invalid => {
                        let u = FramerView { sync_errors: v.sync_errors + 1, ..v };
                        let s = FramerView {
                            lock: Lock::Seeking { scan: 1, after_damage: true },
                            ..u
                        };
                        lemma_lock_irrelevant(u, s, 1, true);
                        lemma_sought_sync(s, 1, true);
                    },
                }
            },
        }
    }
}

/// What is handed out as a major sync passed its checks.
pub proof fn lemma_major_is_checked(v: FramerView)
    requires
        v.valid(),
    ensures
        v.next().1 matches NextView::Au(info, bytes) ==> info.major_sync ==> opens_major_sync(
            bytes,
        ) && (major_sync(bytes) matches Some(Some(_))) && stated_len(bytes) == bytes.len(),
{
    law_step(v);
    if v.lock is Locked && v.queued.len() == 0 && check(v.pending, v.substreams as nat) is Valid {
        reveal(FramerView::next);
        if opens_major_sync(v.pending) {
            lemma_sync_cut(v.pending);
        }
    } else if v.lock is Locked && v.queued.len() > 0 {
        reveal(FramerView::next);
    } else if v.lock is Locked && check(v.pending, v.substreams as nat) is NeedData {
        reveal(FramerView::next);
    } else {
        assert(sync_comes_first(v) || v.next().0.sync_errors > v.sync_errors) by {
            reveal(FramerView::next);
        }
        law_sync_comes_first(v);
    }
}

/// Whether none of the first `n` reports is an access unit for decoding.
pub open spec fn none_among(units: Seq<NextView>, n: int) -> bool {
    forall|j: int| 0 <= j < n ==> !(#[trigger] units[j] is Au)
}

/// In any run after creation, reset or damage (from any state in which a major sync is looked
/// for), the first access unit handed out for decoding has a major sync that passed its checks.
pub proof fn law_first_unit_is_sync(v: FramerView, ops: Seq<Op>)
    requires
        v.valid(),
        v.has_room(pushed(ops).len() as int),
        v.lock is Seeking,
    ensures
        ({
            let (w, units) = run(v, ops);
            &&& forall|i: int|
                0 <= i < units.len() && #[trigger] none_among(units, i) ==> skipped_or_sync(
                    units[i],
                )
            &&& none_among(units, units.len() as int) ==> sync_comes_first(w)
        }),
    decreases ops.len(),
{
    if ops.len() > 0 {
        let (w, had) = run(v, ops.drop_last());
        law_first_unit_is_sync(v, ops.drop_last());
        lemma_run_valid(v, ops.drop_last());
        match ops.last() {
            Op::Push(data) => {
                if w.lock is Locked && none_among(had, had.len() as int) {
                    lemma_total_nonneg(w.queued);
                    let t = total(w.queued);
                    let b = w.pending.skip(t);
                    assert((w.pending + data).skip(t) =~= b + data);
                    lemma_opens_grows(b, data);
                    lemma_major_sync_grows(b, data);
                }
            },
            Op::Next => {
                let (x, r) = w.next();
                let units = run(v, ops).1;
                if none_among(had, had.len() as int) {
                    law_sync_comes_first(w);
                }
                assert forall|i: int|
                    0 <= i < units.len() && #[trigger] none_among(
                        units,
                        i,
                    ) implies skipped_or_sync(units[i]) by {
                    assert(none_among(had, i)) by {
                        assert forall|j: int| 0 <= j < i implies !(#[trigger] had[j] is Au) by {
                            assert(units[j] == had[j]);
                        }
                    }
                    if i < had.len() {
                        assert(units[i] == had[i]);
                    }
                }
                if none_among(units, units.len() as int) {
                    assert(none_among(had, had.len() as int)) by {
                        assert forall|j: int| 0 <= j < had.len() implies !(
                        #[trigger] had[j] is Au) by {
                            assert(units[j] == had[j]);
                        }
                    }
                    if !(r is NeedData) {
                        assert(units[had.len() as int] == r);
                    }
                }
            },
        }
    }
}

/// A run keeps a framer valid while it has room, and room for what is still to come.
proof fn lemma_run_valid(v: FramerView, ops: Seq<Op>)
    requires
        v.valid(),
        v.has_room(pushed(ops).len() as int),
    ensures
        run(v, ops).0.valid(),
        forall|more: int|
            v.has_room(pushed(ops).len() + more) ==> #[trigger] run(v, ops).0.has_room(more),
    decreases ops.len(),
{
    if ops.len() > 0 {
        lemma_run_valid(v, ops.drop_last());
        let w = run(v, ops.drop_last()).0;
        match ops.last() {
            Op::Push(data) => {
                assert(w.has_room(data.len() as int));
                assert forall|more: int|
                    v.has_room(pushed(ops).len() + more) implies #[trigger] run(
                    v,
                    ops,
                ).0.has_room(more) by {
                    assert(w.has_room(data.len() + more));
                }
            },
            Op::Next => {
                law_step(w);
                assert forall|more: int|
                    v.has_room(pushed(ops).len() + more) implies #[trigger] run(
                    v,
                    ops,
                ).0.has_room(more) by {
                    assert(w.has_room(more));
                }
            },
        }
    }
}

/// Whether two framers are in the same place: they differ at most in what they learnt of the
/// stream (the average length, and the substream count while a major sync is looked for), and in
/// their ordinals once these rest on an estimate.
pub open spec fn alike(a: FramerView, b: FramerView) -> bool {
    &&& a.pending == b.pending
    &&& a.consumed == b.consumed
    &&& a.lock == b.lock
    &&& a.queued == b.queued
    &&& a.estimated == b.estimated
    &&& a.sync_errors == b.sync_errors
    &&& a.skipped_bytes == b.skipped_bytes
    &&& a.lock is Locked ==> a.substreams == b.substreams
    &&& !a.estimated ==> a.ordinal == b.ordinal
}

/// Whether two reports agree in everything but the ordinal.
pub open spec fn same_unit(r: NextView, s: NextView) -> bool {
    match (r, s) {
        (NextView::Au(i, x), NextView::Au(j, y)) => x == y && i.offset == j.offset && i.major_sync
            == j.major_sync,
        (NextView::Skipped(i), NextView::Skipped(j)) => i.offset == j.offset && i.major_sync
            == j.major_sync,
        (NextView::NeedData, NextView::NeedData) => true,
        _ => false,
    }
}

proof fn lemma_sought_alike(a: FramerView, b: FramerView, scan: int, after_damage: bool)
    requires
        alike(a, FramerView { substreams: a.substreams, ..b }),
    ensures
        ({
            let (x, r) = a.next_sought(scan, after_damage);
            let (y, s) = b.next_sought(scan, after_damage);
            &&& alike(x, y)
            &&& same_unit(r, s)
            &&& !x.estimated ==> r == s
        }),
{
    let p = a.pending;
    match find_sync(p, scan) {
        None => {},
        Some(c) => {
            if let Some(Some(substreams)) = major_sync(p.skip(c)) {
                let u = FramerView { substreams, ..a };
                let w = FramerView { substreams, ..b };
                let x = u.chain_back(c, after_damage);
                let y = w.chain_back(c, after_damage);
                assert(alike(x, y));
            }
        },
    }
}

/// From the same place, two framers report the same next, but for the size of an estimated jump.
pub proof fn law_alike_step(a: FramerView, b: FramerView)
    requires
        alike(a, b),
    ensures
        alike(a.next().0, b.next().0),
        same_unit(a.next().1, b.next().1),
        !a.next().0.estimated ==> a.next().1 == b.next().1,
{
    reveal(FramerView::next);
    if a.queued.len() == 0 {
        match a.lock {
            Lock::Seeking { scan, after_damage } => {
                lemma_sought_alike(a, b, scan, after_damage);
            },
            Lock::Locked => {
                if check(a.pending, a.substreams as nat) is Invalid {
                    lemma_sought_alike(
                        FramerView { sync_errors: a.sync_errors + 1, ..a },
                        FramerView { sync_errors: b.sync_errors + 1, ..b },
                        1,
                        true,
                    );
                }
            },
        }
    }
}

/// Over any run a reset framer reports what a new one does: the same access units at the same
/// offsets with the same bytes, the same sync errors and skipped bytes, and the same ordinals
/// unless the count is flagged as estimated (only the size of an estimated jump rests on what was
/// learnt before).
pub proof fn law_reset_is_fresh(last: FramerView, ops: Seq<Op>)
    requires
        last.valid(),
        last.framed_bytes + pushed(ops).len() <= MAX_STREAM_BYTES,
    ensures
        ({
            let (v, units) = run(last.after_reset(), ops);
            let (w, others) = run(FramerView::fresh(), ops);
            &&& alike(v, w)
            &&& units.len() == others.len()
            &&& forall|i: int| 0 <= i < units.len() ==> same_unit(#[trigger] units[i], others[i])
            &&& !v.estimated ==> units == others
        }),
    decreases ops.len(),
{
    if ops.len() > 0 {
        let before = ops.drop_last();
        law_reset_is_fresh(last, before);
        law_run(last, before);
        let (v, units) = run(last.after_reset(), before);
        let (w, others) = run(FramerView::fresh(), before);
        if ops.last() is Next {
            law_alike_step(v, w);
            law_step(v);
            let more = run(last.after_reset(), ops).1;
            let same = run(FramerView::fresh(), ops).1;
            assert forall|i: int| 0 <= i < more.len() implies same_unit(
                #[trigger] more[i],
                same[i],
            ) by {
                if i < units.len() {
                    assert(more[i] == units[i] && same[i] == others[i]);
                }
            }
        }
    }
}

/// Whether `more` turns the verdict on the access unit at the front of a locked framer: complete
/// by its stated length, it is damaged as its substream directory runs past every byte there is,
/// while with the bytes behind it its header parity comes out right.
pub open spec fn verdict_turns(v: FramerView, more: Seq<u8>) -> bool {
    &&& v.queued.len() == 0
    &&& v.lock is Locked
    &&& v.pending.len() >= MIN_AU_LEN
    &&& MIN_AU_LEN <= stated_len(v.pending) <= v.pending.len()
    &&& !opens_major_sync(v.pending)
    &&& header_parity(v.pending, v.substreams as nat, 0) is None
    &&& header_parity(v.pending + more, v.substreams as nat, 0) == Some(true)
}

proof fn lemma_directory_grows(b: Seq<u8>, more: Seq<u8>, pos: int, entries: nat)
    requires
        0 <= pos,
        directory_end(b, pos, entries) is Some,
    ensures
        directory_end(b + more, pos, entries) == directory_end(b, pos, entries),
        directory_end(b, pos, entries)->0 >= pos,
        entries > 0 ==> directory_end(b, pos, entries)->0 <= b.len(),
    decreases entries,
{
    if entries > 0 {
        let width: int = if b[pos] >= 128 { 4 } else { 2 };
        assert((b + more)[pos] == b[pos]);
        lemma_directory_grows(b, more, pos + width, (entries - 1) as nat);
    }
}

pub proof fn lemma_parity_grows(b: Seq<u8>, more: Seq<u8>, substreams: nat, skip: int)
    requires
        0 <= skip,
        header_parity(b, substreams, skip) is Some,
    ensures
        header_parity(b + more, substreams, skip) == header_parity(b, substreams, skip),
{
    lemma_directory_grows(b, more, 4 + skip, substreams);
    let end = directory_end(b, 4 + skip, substreams)->0;
    assert((b + more).subrange(0, 4) =~= b.subrange(0, 4));
    if substreams > 0 {
        assert((b + more).subrange(4 + skip, end) =~= b.subrange(4 + skip, end));
    }
}

/// A verdict on a major sync stands whatever follows.
pub proof fn lemma_major_sync_grows(b: Seq<u8>, more: Seq<u8>)
    requires
        major_sync(b) is Some,
    ensures
        major_sync(b + more) == major_sync(b),
{
    let c = b + more;
    assert(c[7] == b[7] && c[0] == b[0] && c[1] == b[1]);
    if b[7] != 0xBB {
        assert(c[29] == b[29]);
        if b[29] % 2 != 0 {
            assert(c[30] == b[30]);
        }
    }
    assert(sync_info_len(c) == sync_info_len(b));
    let info = sync_info_len(b)->0;
    let len = stated_len(b);
    assert(stated_len(c) == len);
    if len > info + 6 {
        assert(c[4 + info] == b[4 + info] && c[5 + info] == b[5 + info] && c[20] == b[20]);
        assert(c.subrange(4, 4 + info) =~= b.subrange(4, 4 + info));
        assert(c.subrange(0, len) =~= b.subrange(0, len));
    }
}

pub proof fn lemma_opens_grows(b: Seq<u8>, more: Seq<u8>)
    requires
        b.len() >= MIN_AU_LEN,
    ensures
        opens_major_sync(b + more) == opens_major_sync(b),
        stated_len(b + more) == stated_len(b),
{
    assert((b + more).subrange(4, 8) =~= b.subrange(4, 8));
}

/// A verdict on the access unit at the front stands whatever follows, unless its directory
/// overruns and comes out right.
proof fn lemma_check_grows(b: Seq<u8>, more: Seq<u8>, substreams: nat)
    requires
        !(check(b, substreams) is NeedData),
        !(header_parity(b, substreams, 0) is None && MIN_AU_LEN <= stated_len(b) <= b.len()
            && !opens_major_sync(b) && header_parity(b + more, substreams, 0) == Some(true)),
    ensures
        check(b + more, substreams) == check(b, substreams),
{
    lemma_opens_grows(b, more);
    if stated_len(b) >= MIN_AU_LEN {
        if opens_major_sync(b) {
            lemma_major_sync_grows(b, more);
        } else if header_parity(b, substreams, 0) is Some {
            lemma_parity_grows(b, more, substreams, 0);
        }
    }
}

/// The search for a major sync carried on with more bytes: an accepted sync stays accepted, and
/// everything passed over stays passed over.
proof fn lemma_find_grows(p: Seq<u8>, more: Seq<u8>, scan: int)
    requires
        0 <= scan <= p.len(),
    ensures
        match find_sync(p, scan) {
            Some(c) => {
                &&& scan <= c
                &&& c + MIN_AU_LEN <= p.len()
                &&& find_sync(p + more, scan) == find_sync(p + more, c)
                &&& major_sync(p.skip(c)) is Some ==> {
                    &&& find_sync(p + more, scan) == Some(c)
                    &&& major_sync((p + more).skip(c)) == major_sync(p.skip(c))
                    &&& major_sync(p.skip(c)) matches Some(Some(_))
                }
            },
            None => {
                let resume: int = if p.len() - SCAN_KEEP > scan {
                    p.len() - SCAN_KEEP
                } else {
                    scan
                };
                find_sync(p + more, scan) == find_sync(p + more, resume)
            },
        },
{
    let all = p + more;
    lemma_find_sync(p, scan);
    let upto: int = match find_sync(p, scan) {
        Some(c) => c,
        None => if p.len() - SCAN_KEEP > scan {
            p.len() - SCAN_KEEP
        } else {
            scan
        },
    };
    assert forall|q: int| scan <= q < upto implies !#[trigger] sync_candidate(all, q) by {
        assert(!sync_candidate(p, q));
        assert(all.skip(q) =~= p.skip(q) + more);
        lemma_opens_grows(p.skip(q), more);
        if opens_major_sync(p.skip(q)) {
            lemma_major_sync_grows(p.skip(q), more);
        }
    }
    lemma_find_sync_is(all, scan, upto);
    if let Some(c) = find_sync(p, scan) {
        if major_sync(p.skip(c)) is Some {
            assert(all.skip(c) =~= p.skip(c) + more);
            lemma_opens_grows(p.skip(c), more);
            lemma_major_sync_grows(p.skip(c), more);
        }
    }
}

/// Handing out an access unit and pushing commute.
proof fn lemma_take_then_push(v: FramerView, more: Seq<u8>, len: int)
    requires
        0 <= len <= v.pending.len(),
    ensures
        v.take_unit(len).after_push(more) == v.after_push(more).take_unit(len),
        (v.pending + more).take(len) == v.pending.take(len),
{
    assert(v.pending.skip(len) + more =~= (v.pending + more).skip(len));
    assert((v.pending + more).take(len) =~= v.pending.take(len));
}

/// Chaining back and pushing commute.
proof fn lemma_chain_then_push(v: FramerView, more: Seq<u8>, sync: int, after_damage: bool)
    requires
        0 <= sync <= v.pending.len(),
    ensures
        v.chain_back(sync, after_damage).after_push(more) == v.after_push(more).chain_back(
            sync,
            after_damage,
        ),
{
    let region = v.pending.take(sync);
    lemma_first_chain(region, 0, v.substreams as nat);
    let first = first_chain(region, 0, v.substreams as nat);
    assert((v.pending + more).take(sync) =~= region);
    assert(v.pending.skip(first) + more =~= (v.pending + more).skip(first));
}

/// A search that succeeds hands out the same access unit whatever follows.
proof fn lemma_sought_stands(v: FramerView, more: Seq<u8>, scan: int, after_damage: bool)
    requires
        v.valid(),
        v.lock == (Lock::Seeking { scan, after_damage }),
        !(v.next_sought(scan, after_damage).1 is NeedData),
    ensures
        ({
            let (w, r) = v.next_sought(scan, after_damage);
            v.after_push(more).next_sought(scan, after_damage) == (w.after_push(more), r)
        }),
{
    let p = v.pending;
    lemma_find_sync(p, scan);
    lemma_find_grows(p, more, scan);
    let (w, found) = v.seek(scan, after_damage);
    assert(found);
    let c = find_sync(p, scan)->0;
    let substreams = major_sync(p.skip(c)).unwrap().unwrap();
    let u = FramerView { substreams, ..v };
    lemma_sync_ready(p.skip(c));
    lemma_chain_back(u, c, after_damage);
    lemma_chain_then_push(u, more, c, after_damage);
    assert(u.after_push(more) == (FramerView { substreams, ..v.after_push(more) }));
    assert(v.after_push(more).seek(scan, after_damage) == (w.after_push(more), true));
    if w.queued.len() > 0 {
        lemma_total_nonneg(w.queued.drop_first());
        lemma_take_then_push(w, more, w.queued[0] as int);
    } else {
        lemma_opens_grows(w.pending, more);
        lemma_major_sync_grows(w.pending, more);
        lemma_take_then_push(w, more, stated_len(w.pending));
    }
}

/// A search that has to wait, and let nothing go, goes on as if all bytes had come at once.
proof fn lemma_sought_waits(v: FramerView, more: Seq<u8>, scan: int, after_damage: bool)
    requires
        v.valid(),
        v.lock == (Lock::Seeking { scan, after_damage }),
        v.next_sought(scan, after_damage).1 is NeedData,
        v.next_sought(scan, after_damage).0.consumed == v.consumed,
    ensures
        v.next_sought(scan, after_damage).0.after_push(more).next() == v.after_push(
            more,
        ).next_sought(scan, after_damage),
{
    reveal(FramerView::next);
    let p = v.pending;
    lemma_find_sync(p, scan);
    lemma_find_grows(p, more, scan);
    let (w, found) = v.seek(scan, after_damage);
    assert(!found) by {
        if found {
            if w.queued.len() > 0 {
                assert(v.next_sought(scan, after_damage).1 is Skipped);
            } else {
                assert(v.next_sought(scan, after_damage).1 is Au);
            }
        }
    }
    let to = w.lock->scan;
    assert(w == (FramerView { lock: Lock::Seeking { scan: to, after_damage }, ..v }));
    lemma_lock_irrelevant(v.after_push(more), w.after_push(more), to, after_damage);
    assert(v.after_push(more).seek(to, after_damage) == v.after_push(more).seek(
        scan,
        after_damage,
    ));
}

/// An access unit that was handed out would have been handed out just the same had more bytes
/// been there already, unless they turn a verdict.
pub proof fn law_units_stand(v: FramerView, more: Seq<u8>)
    requires
        v.valid(),
        !verdict_turns(v, more),
        !(v.next().1 is NeedData),
    ensures
        v.after_push(more).next() == (v.next().0.after_push(more), v.next().1),
{
    reveal(FramerView::next);
    let (w, r) = v.next();
    if v.queued.len() > 0 {
        lemma_total_nonneg(v.queued.drop_first());
        lemma_take_then_push(v, more, v.queued[0] as int);
    } else {
        match v.lock {
            Lock::Seeking { scan, after_damage } => {
                lemma_sought_stands(v, more, scan, after_damage);
            },
            Lock::Locked => {
                lemma_check_grows(v.pending, more, v.substreams as nat);
                match check(v.pending, v.substreams as nat) {
                    Check::Valid { len, major } => {
                        lemma_take_then_push(v, more, len as int);
                        if major {
                            lemma_major_sync_grows(v.pending, more);
                        }
                    },
                    Check::NeedData => {},
                    Check::Invalid => {
                        let u = FramerView { sync_errors: v.sync_errors + 1, ..v };
                        let s = FramerView {
                            lock: Lock::Seeking { scan: 1, after_damage: true },
                            ..u
                        };
                        lemma_lock_irrelevant(u, s, 1, true);
                        lemma_lock_irrelevant(u.after_push(more), s.after_push(more), 1, true);
                        lemma_sought_stands(s, more, 1, true);
                        assert(v.after_push(more).next() == u.after_push(more).next_sought(
                            1,
                            true,
                        ));
                    },
                }
            },
        }
    }
}

/// A framer that had to wait, and let nothing go, goes on with more bytes as if they had been
/// there all along, unless they turn a verdict.
pub proof fn law_waiting_loses_nothing(v: FramerView, more: Seq<u8>)
    requires
        v.valid(),
        !verdict_turns(v, more),
        v.next().1 is NeedData,
        v.next().0.consumed == v.consumed,
    ensures
        v.next().0.after_push(more).next() == v.after_push(more).next(),
{
    reveal(FramerView::next);
    assert(v.queued.len() == 0);
    match v.lock {
        Lock::Seeking { scan, after_damage } => {
            lemma_sought_waits(v, more, scan, after_damage);
        },
        Lock::Locked => {
            match check(v.pending, v.substreams as nat) {
                Check::Valid { len, major } => {},
                Check::NeedData => {},
                Check::Invalid => {
                    lemma_check_grows(v.pending, more, v.substreams as nat);
                    let u = FramerView { sync_errors: v.sync_errors + 1, ..v };
                    let s = FramerView {
                        lock: Lock::Seeking { scan: 1, after_damage: true },
                        ..u
                    };
                    lemma_lock_irrelevant(u, s, 1, true);
                    lemma_lock_irrelevant(u.after_push(more), s.after_push(more), 1, true);
                    lemma_sought_waits(s, more, 1, true);
                    assert(v.after_push(more).next() == u.after_push(more).next_sought(1, true));
                },
            }
        },
    }
}

/// Where handing out access units until more bytes are needed leads, and those handed out.
pub open spec fn drain(v: FramerView) -> (FramerView, Seq<NextView>)
    decreases v.pending.len(),
{
    let (w, r) = v.next();
    if r is NeedData || w.pending.len() >= v.pending.len() {
        (w, Seq::empty())
    } else {
        let (x, rest) = drain(w);
        (x, seq![r] + rest)
    }
}

/// Whether draining before `more` comes decides nothing that `more` would have decided otherwise:
/// it meets no verdict that turns, and lets no bytes go for want of a sync.
pub open spec fn quiet(v: FramerView, more: Seq<u8>) -> bool
    decreases v.pending.len(),
{
    let (w, r) = v.next();
    &&& !verdict_turns(v, more)
    &&& if r is NeedData {
        w.consumed == v.consumed
    } else {
        w.pending.len() < v.pending.len() ==> quiet(w, more)
    }
}

/// Draining, pushing and draining again hands out what pushing first would have.
pub proof fn law_drain_then_push(v: FramerView, more: Seq<u8>)
    requires
        v.valid(),
        quiet(v, more),
    ensures
        ({
            let (w, units) = drain(v);
            let (x, later) = drain(w.after_push(more));
            drain(v.after_push(more)) == (x, units + later)
        }),
    decreases v.pending.len(),
{
    let (w, r) = v.next();
    law_step(v);
    if r is NeedData {
        law_waiting_loses_nothing(v, more);
        assert(w.pending =~= v.pending);
        let later = drain(w.after_push(more)).1;
        assert(Seq::<NextView>::empty() + later =~= later);
    } else {
        law_units_stand(v, more);
        law_drain_then_push(w, more);
        let units = drain(w).1;
        let later = drain(drain(w).0.after_push(more)).1;
        assert(seq![r] + (units + later) =~= (seq![r] + units) + later);
    }
}

/// All chunks joined.
pub open spec fn joined(chunks: Seq<Seq<u8>>) -> Seq<u8>
    decreases chunks.len(),
{
    if chunks.len() == 0 {
        Seq::empty()
    } else {
        chunks[0] + joined(chunks.skip(1))
    }
}

/// Where pushing the chunks one by one, and draining after each, leads.
pub open spec fn fed(v: FramerView, chunks: Seq<Seq<u8>>) -> (FramerView, Seq<NextView>)
    decreases chunks.len(),
{
    if chunks.len() == 0 {
        (v, Seq::empty())
    } else {
        let (w, units) = drain(v.after_push(chunks[0]));
        let (x, later) = fed(w, chunks.skip(1));
        (x, units + later)
    }
}

/// Whether draining after each chunk but the last decides nothing that the rest of the input
/// would have decided otherwise.
pub open spec fn undisturbed(v: FramerView, chunks: Seq<Seq<u8>>) -> bool
    decreases chunks.len(),
{
    chunks.len() <= 1 || {
        &&& quiet(v.after_push(chunks[0]), joined(chunks.skip(1)))
        &&& undisturbed(drain(v.after_push(chunks[0])).0, chunks.skip(1))
    }
}

pub proof fn lemma_drain(v: FramerView)
    requires
        v.valid(),
    ensures
        drain(v).0.valid(),
        forall|more: int| v.has_room(more) ==> #[trigger] drain(v).0.has_room(more),
    decreases v.pending.len(),
{
    law_step(v);
    let (w, r) = v.next();
    if !(r is NeedData) {
        lemma_drain(w);
        assert forall|more: int| v.has_room(more) implies #[trigger] drain(v).0.has_room(more) by {
            assert(w.has_room(more));
            assert(drain(w).0.has_room(more));
        }
    }
}

/// However the input is cut into pushes, the same access units come out, with the same offsets
/// and ordinals, as if all of it had been pushed at once. Left out are inputs on which the
/// framer decides before the bytes that matter are there: a directory that overruns an access
/// unit's stated end, and more bytes without a major sync than are retained.
pub proof fn law_chunking(v: FramerView, chunks: Seq<Seq<u8>>)
    requires
        v.valid(),
        v.has_room(joined(chunks).len() as int),
        chunks.len() > 0,
        undisturbed(v, chunks),
    ensures
        fed(v, chunks) == drain(v.after_push(joined(chunks))),
    decreases chunks.len(),
{
    let rest = chunks.skip(1);
    let first = v.after_push(chunks[0]);
    let units = drain(first).1;
    if rest.len() == 0 {
        assert(joined(rest) =~= Seq::<u8>::empty());
        assert(joined(chunks) =~= chunks[0]);
        assert(fed(drain(first).0, rest) == (drain(first).0, Seq::<NextView>::empty()));
        assert(units + Seq::<NextView>::empty() =~= units);
    } else {
        let w = drain(first).0;
        let whole = joined(rest);
        assert(first.has_room(whole.len() as int));
        lemma_drain(first);
        assert(w.has_room(whole.len() as int));
        law_chunking(w, rest);
        law_drain_then_push(first, whole);
        assert((v.pending + chunks[0]) + whole =~= v.pending + joined(chunks));
        assert(first.after_push(whole) == v.after_push(joined(chunks)));
    }
}

} // verus!
