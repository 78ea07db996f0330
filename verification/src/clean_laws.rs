//! What the framer promises of an undamaged stream: every access unit comes out, under its own
//! ordinal, however the stream is cut into pushes.

use crate::chain::{chains, first_chain, unit_lens};
use crate::framer::{
    check, find_sync, lemma_find_sync, sync_candidate, AuInfo, Check, FramerView, Lock,
    NextView, MAX_RETAINED, SCAN_KEEP,
};
use crate::framer_laws::{
    drain, fed, joined, law_step, lemma_drain, lemma_major_sync_grows, lemma_opens_grows,
    lemma_parity_grows, quiet, undisturbed, verdict_turns,
};
use crate::header::{header_parity, major_sync, opens_major_sync, stated_len, MIN_AU_LEN};
use vstd::prelude::*;

verus! {

/// Where access unit `i` starts, when the units follow each other from the first byte on.
pub open spec fn start_of(units: Seq<Seq<u8>>, i: int) -> int
    decreases i,
{
    if i <= 0 {
        0
    } else {
        start_of(units, i - 1) + units[i - 1].len()
    }
}

/// Whether `u` is a whole access unit with a valid major sync.
pub open spec fn whole_major(u: Seq<u8>) -> bool {
    &&& opens_major_sync(u)
    &&& major_sync(u) matches Some(Some(_))
    &&& stated_len(u) == u.len()
}

/// Whether `u` is a whole access unit without a major sync, whose header and substream directory
/// have correct parity.
pub open spec fn whole_minor(u: Seq<u8>, substreams: usize) -> bool {
    &&& u.len() >= MIN_AU_LEN
    &&& stated_len(u) == u.len()
    &&& !opens_major_sync(u)
    &&& header_parity(u, substreams as nat, 0) == Some(true)
}

/// The substream count a major sync declares.
pub open spec fn declared(u: Seq<u8>) -> usize {
    major_sync(u).unwrap().unwrap()
}

/// The substream count in force at access unit `i`, where unit `k` has the first major sync: what
/// the last major sync before `i` declared, or that first one.
pub open spec fn in_force(units: Seq<Seq<u8>>, k: int, i: int) -> usize
    decreases i,
{
    if i <= k + 1 || i <= 0 {
        declared(units[k])
    } else if whole_major(units[i - 1]) {
        declared(units[i - 1])
    } else {
        in_force(units, k, i - 1)
    }
}

/// Whether `units` are the access units of an undamaged stream whose first major sync is in unit
/// `k`: each is whole and passes its checks, no sync word stands before that major sync, and no
/// more bytes do than are retained.
pub open spec fn clean(units: Seq<Seq<u8>>, k: int) -> bool {
    &&& 0 <= k < units.len()
    &&& whole_major(units[k])
    &&& forall|i: int| 0 <= i < k ==> whole_minor(#[trigger] units[i], declared(units[k]))
    &&& forall|i: int|
        k < i < units.len() ==> whole_major(#[trigger] units[i]) || whole_minor(
            units[i],
            in_force(units, k, i),
        )
    &&& forall|c: int|
        0 <= c < start_of(units, k) ==> !opens_major_sync(#[trigger] joined(units).skip(c))
    &&& start_of(units, k) <= MAX_RETAINED
}

/// What is reported of access unit `i`: those before the first major sync are counted, the others
/// handed out for decoding.
pub open spec fn report(units: Seq<Seq<u8>>, k: int, i: int) -> NextView {
    let info = AuInfo {
        offset: start_of(units, i) as u64,
        ordinal: i as u64,
        major_sync: i >= k && whole_major(units[i]),
    };
    if i < k {
        NextView::Skipped(info)
    } else {
        NextView::Au(info, units[i])
    }
}

/// The reports of access units `i` to `j`.
pub open spec fn reports(units: Seq<Seq<u8>>, k: int, i: int, j: int) -> Seq<NextView> {
    Seq::new((j - i) as nat, |a: int| report(units, k, i + a))
}

proof fn lemma_joined_concat(a: Seq<Seq<u8>>, b: Seq<Seq<u8>>)
    ensures
        joined(a + b) == joined(a) + joined(b),
    decreases a.len(),
{
    if a.len() == 0 {
        assert(a + b =~= b);
        assert(joined(a) + joined(b) =~= joined(b));
    } else {
        lemma_joined_concat(a.skip(1), b);
        assert((a + b).skip(1) =~= a.skip(1) + b);
        assert(a[0] + (joined(a.skip(1)) + joined(b)) =~= (a[0] + joined(a.skip(1))) + joined(b));
    }
}

proof fn lemma_joined_one(u: Seq<u8>)
    ensures
        joined(seq![u]) == u,
{
    let one = seq![u];
    assert(joined(one.skip(1)) =~= Seq::<u8>::empty());
    assert(joined(one) =~= u);
}

proof fn lemma_joined_len(units: Seq<Seq<u8>>, i: int)
    requires
        0 <= i <= units.len(),
    ensures
        joined(units.take(i)).len() == start_of(units, i),
    decreases i,
{
    if i > 0 {
        lemma_joined_len(units, i - 1);
        assert(units.take(i) =~= units.take(i - 1) + seq![units[i - 1]]);
        lemma_joined_concat(units.take(i - 1), seq![units[i - 1]]);
        lemma_joined_one(units[i - 1]);
    } else {
        assert(units.take(0) =~= Seq::<Seq<u8>>::empty());
    }
}

pub proof fn lemma_starts_grow(units: Seq<Seq<u8>>, i: int, j: int)
    requires
        0 <= i <= j,
    ensures
        0 <= start_of(units, i) <= start_of(units, j),
    decreases j,
{
    if i < j {
        lemma_starts_grow(units, i, j - 1);
    } else if i > 0 {
        lemma_starts_grow(units, i - 1, i - 1);
    }
}

/// The stream is what comes before unit `i` and what comes from it on.
pub proof fn lemma_split(units: Seq<Seq<u8>>, i: int)
    requires
        0 <= i <= units.len(),
    ensures
        0 <= start_of(units, i) <= joined(units).len(),
        joined(units).take(start_of(units, i)) == joined(units.take(i)),
        joined(units).skip(start_of(units, i)) == joined(units.skip(i)),
        start_of(units, units.len() as int) == joined(units).len(),
{
    lemma_joined_len(units, i);
    lemma_joined_len(units, units.len() as int);
    assert(units.take(units.len() as int) =~= units);
    lemma_starts_grow(units, 0, i);
    assert(units =~= units.take(i) + units.skip(i));
    lemma_joined_concat(units.take(i), units.skip(i));
    assert(joined(units).take(start_of(units, i)) =~= joined(units.take(i)));
    assert(joined(units).skip(start_of(units, i)) =~= joined(units.skip(i)));
}

/// Unit `i` stands in the stream where it starts.
pub proof fn lemma_piece(units: Seq<Seq<u8>>, i: int)
    requires
        0 <= i < units.len(),
    ensures
        0 <= start_of(units, i),
        start_of(units, i + 1) == start_of(units, i) + units[i].len(),
        start_of(units, i + 1) <= joined(units).len(),
        joined(units).subrange(start_of(units, i), start_of(units, i + 1)) == units[i],
{
    lemma_split(units, i);
    lemma_split(units, i + 1);
    let rest = units.skip(i);
    assert(rest[0] == units[i]);
    assert(joined(rest).take(units[i].len() as int) =~= units[i]);
    assert(joined(units).subrange(start_of(units, i), start_of(units, i + 1)) =~= joined(
        units,
    ).skip(start_of(units, i)).take(units[i].len() as int));
}

/// What is pending at unit `i` once `n` bytes were pushed: the unit and more, or a part of it.
proof fn lemma_front(units: Seq<Seq<u8>>, i: int, n: int)
    requires
        0 <= i < units.len(),
        start_of(units, i) <= n <= joined(units).len(),
    ensures
        ({
            let s = joined(units);
            let p = s.subrange(start_of(units, i), n);
            let end = start_of(units, i + 1);
            &&& end <= s.len()
            &&& n >= end ==> p == units[i] + s.subrange(end, n)
            &&& n < end ==> units[i] == p + s.subrange(n, end)
        }),
{
    lemma_piece(units, i);
    let s = joined(units);
    let p = s.subrange(start_of(units, i), n);
    let end = start_of(units, i + 1);
    let u = s.subrange(start_of(units, i), end);
    if n >= end {
        assert(p =~= u + s.subrange(end, n));
    } else {
        assert(u =~= p + s.subrange(n, end));
    }
}

/// Lengths of units `i` to `k`.
pub open spec fn lens(units: Seq<Seq<u8>>, i: int, k: int) -> Seq<usize> {
    Seq::new(
        if i < k {
            (k - i) as nat
        } else {
            0
        },
        |j: int| units[i + j].len() as usize,
    )
}

/// The units in front of the first major sync form a chain onto it.
proof fn lemma_chain(units: Seq<Seq<u8>>, k: int, i: int)
    requires
        clean(units, k),
        0 <= i <= k,
    ensures
        ({
            let region = joined(units).take(start_of(units, k));
            &&& region.len() == start_of(units, k)
            &&& unit_lens(region, start_of(units, i)) == lens(units, i, k)
            &&& i < k ==> chains(region, start_of(units, i), declared(units[k]) as nat)
        }),
    decreases k - i,
{
    let s = joined(units);
    let region = s.take(start_of(units, k));
    lemma_split(units, k);
    if i == k {
        assert(unit_lens(region, start_of(units, i)) =~= lens(units, i, k));
    } else {
        let p = start_of(units, i);
        let next = start_of(units, i + 1);
        let u = units[i];
        lemma_piece(units, i);
        lemma_starts_grow(units, i + 1, k);
        lemma_chain(units, k, i + 1);
        assert(whole_minor(u, declared(units[k])));
        let tail = region.skip(next);
        assert(region.skip(p) =~= u + tail) by {
            assert(region.skip(p).take(u.len() as int) =~= s.subrange(p, next));
        }
        lemma_opens_grows(u, tail);
        assert(region.subrange(p, next) =~= u) by {
            assert(region.subrange(p, next) =~= s.subrange(p, next));
        }
        if i + 1 == k {
            assert(next == region.len());
        }
        assert(chains(region, p, declared(units[k]) as nat));
        assert(unit_lens(region, p) =~= lens(units, i, k)) by {
            assert(unit_lens(region, p) == seq![u.len() as usize] + unit_lens(region, next));
        }
    }
}

/// The state of a framer that has handed out the first `i` units of a clean stream and was given
/// its first `n` bytes.
pub open spec fn following(v: FramerView, units: Seq<Seq<u8>>, k: int, i: int, n: int) -> bool {
    let s = joined(units);
    &&& v.valid()
    &&& 0 <= i <= units.len()
    &&& start_of(units, i) <= n <= s.len()
    &&& v.consumed == start_of(units, i)
    &&& v.pending == s.subrange(start_of(units, i), n)
    &&& v.ordinal == i
    &&& !v.estimated
    &&& v.sync_errors == 0
    &&& v.skipped_bytes == 0
    &&& match v.lock {
        Lock::Seeking { scan, after_damage } => {
            i == 0 && !after_damage && scan <= start_of(units, k)
        },
        Lock::Locked => {
            &&& n >= start_of(units, k + 1)
            &&& v.substreams == in_force(units, k, i)
            &&& v.queued == lens(units, i, k)
        },
    }
}

/// The bytes of a major sync that is not whole yet are no verdict.
proof fn lemma_partial_major(u: Seq<u8>, p: Seq<u8>, rest: Seq<u8>)
    requires
        whole_major(u),
        u == p + rest,
        rest.len() > 0,
    ensures
        major_sync(p) is None,
        p.len() >= MIN_AU_LEN ==> opens_major_sync(p),
{
    if p.len() >= MIN_AU_LEN {
        lemma_opens_grows(p, rest);
    }
    if major_sync(p) is Some {
        lemma_major_sync_grows(p, rest);
        assert(stated_len(p) == stated_len(u));
    }
}

/// The search in what there is of the stream finds the first major sync, or waits for it.
#[verifier::rlimit(30)]
proof fn lemma_seek_clean(v: FramerView, units: Seq<Seq<u8>>, k: int, n: int)
    requires
        clean(units, k),
        following(v, units, k, 0, n),
        v.lock is Seeking,
    ensures
        ({
            let scan = v.lock->scan;
            let (w, found) = v.seek(scan, false);
            &&& found == (n >= start_of(units, k + 1))
            &&& !found ==> {
                &&& w == (FramerView { lock: w.lock, ..v })
                &&& w.lock matches Lock::Seeking { scan, after_damage }
                &&& !after_damage
                &&& 0 <= scan <= w.pending.len()
                &&& scan <= start_of(units, k)
            }
            &&& found ==> w == (FramerView {
                lock: Lock::Locked,
                substreams: declared(units[k]),
                queued: lens(units, 0, k),
                ..v
            })
        }),
{
    let s = joined(units);
    let p = v.pending;
    let scan = v.lock->scan;
    let at = start_of(units, k);
    let u = units[k];
    lemma_piece(units, k);
    lemma_starts_grow(units, 0, k);
    assert(p =~= s.take(n));
    lemma_find_sync(p, scan);
    // No candidate before the first major sync.
    assert forall|q: int| scan <= q < at && q + MIN_AU_LEN <= n implies !#[trigger] sync_candidate(
        p,
        q,
    ) by {
        assert(s.skip(q) =~= p.skip(q) + s.skip(n));
        lemma_opens_grows(p.skip(q), s.skip(n));
        assert(!opens_major_sync(s.skip(q)));
    }
    if n >= at {
        lemma_front(units, k, n);
        let here = p.skip(at);
        assert(here =~= s.subrange(at, n));
        if n >= start_of(units, k + 1) {
            let more = s.subrange(start_of(units, k + 1), n);
            lemma_opens_grows(u, more);
            lemma_major_sync_grows(u, more);
            assert(sync_candidate(p, at));
            assert(find_sync(p, scan) == Some(at));
            lemma_chain(units, k, 0);
            let region = p.take(at);
            assert(region =~= s.take(at));
            assert(first_chain(region, 0, declared(u) as nat) == 0);
        } else {
            let rest = s.subrange(n, start_of(units, k + 1));
            lemma_partial_major(u, here, rest);
            if n >= at + MIN_AU_LEN {
                assert(sync_candidate(p, at));
                assert(find_sync(p, scan) == Some(at));
            }
        }
    }
    if n < at + MIN_AU_LEN {
        assert(find_sync(p, scan) is None);
        let resume: int = if p.len() - SCAN_KEEP > scan {
            p.len() - SCAN_KEEP
        } else {
            scan
        };
        assert(resume <= at);
    }
}

/// What one step on a clean stream comes to: the next unit comes out as it should, or more bytes
/// are waited for.
pub open spec fn clean_step(
    v: FramerView,
    w: FramerView,
    r: NextView,
    units: Seq<Seq<u8>>,
    k: int,
    i: int,
    n: int,
) -> bool {
    if r is NeedData {
        &&& following(w, units, k, i, n)
        &&& w.consumed == v.consumed
        &&& n == joined(units).len() ==> i == units.len()
    } else {
        &&& i < units.len()
        &&& r == report(units, k, i)
        &&& following(w, units, k, i + 1, n)
    }
}

proof fn lemma_next_valid(v: FramerView)
    requires
        v.valid(),
    ensures
        v.next().0.valid(),
{
    law_step(v);
}

proof fn lemma_clean_seeking(v: FramerView, units: Seq<Seq<u8>>, k: int, n: int)
    requires
        clean(units, k),
        following(v, units, k, 0, n),
        v.lock is Seeking,
    ensures
        clean_step(v, v.next().0, v.next().1, units, k, 0, n),
{
    lemma_next_valid(v);
    lemma_seek_clean(v, units, k, n);
    lemma_split(units, units.len() as int);
    lemma_starts_grow(units, k + 1, units.len() as int);
    lemma_starts_grow(units, 1, k + 1);
    let (x, found) = v.seek(v.lock->scan, false);
    if found {
        if k > 0 {
            assert(x.queued.len() == k);
            lemma_queue_unit(x, units, k, 0, n);
        } else {
            assert(x.queued.len() == 0);
            lemma_checked_unit(x, units, k, 0, n);
            assert(x.queued =~= lens(units, 1, k));
        }
    }
    reveal(FramerView::next);
}

proof fn lemma_clean_locked(v: FramerView, units: Seq<Seq<u8>>, k: int, i: int, n: int)
    requires
        clean(units, k),
        following(v, units, k, i, n),
        v.lock is Locked,
    ensures
        clean_step(v, v.next().0, v.next().1, units, k, i, n),
{
    lemma_next_valid(v);
    lemma_split(units, units.len() as int);
    lemma_starts_grow(units, i, units.len() as int);
    if i < k {
        assert(v.queued.len() == k - i);
        lemma_starts_grow(units, i + 1, k + 1);
        lemma_queue_unit(v, units, k, i, n);
    } else {
        assert(v.queued.len() == 0);
        if i < units.len() {
            lemma_locked_check(v, units, k, i, n);
            lemma_starts_grow(units, i + 1, units.len() as int);
            if n >= start_of(units, i + 1) {
                lemma_checked_unit(v, units, k, i, n);
                assert(v.queued =~= lens(units, i + 1, k));
            }
        } else {
            assert(v.pending.len() == 0);
        }
    }
    reveal(FramerView::next);
}

/// One step on a clean stream, in which nothing is decided that more bytes could turn.
pub proof fn lemma_clean_step(v: FramerView, units: Seq<Seq<u8>>, k: int, i: int, n: int)
    requires
        clean(units, k),
        following(v, units, k, i, n),
    ensures
        forall|more: Seq<u8>| !#[trigger] verdict_turns(v, more),
        clean_step(v, v.next().0, v.next().1, units, k, i, n),
{
    if v.lock is Seeking {
        lemma_clean_seeking(v, units, k, n);
    } else {
        lemma_clean_locked(v, units, k, i, n);
        lemma_split(units, units.len() as int);
        if k <= i < units.len() {
            lemma_piece(units, i);
            lemma_locked_check(v, units, k, i, n);
        }
    }
}

/// A queued unit of a clean stream.
proof fn lemma_queue_unit(v: FramerView, units: Seq<Seq<u8>>, k: int, i: int, n: int)
    requires
        clean(units, k),
        0 <= i < k,
        start_of(units, i + 1) <= n <= joined(units).len(),
        v.pending == joined(units).subrange(start_of(units, i), n),
        v.consumed == start_of(units, i),
        v.ordinal == i,
        v.queued == lens(units, i, k),
        v.substreams == declared(units[k]),
    ensures
        ({
            let (w, r) = v.next_queued();
            &&& r == report(units, k, i)
            &&& w.pending == joined(units).subrange(start_of(units, i + 1), n)
            &&& w.consumed == start_of(units, i + 1)
            &&& w.ordinal == i + 1
            &&& w.queued == lens(units, i + 1, k)
            &&& w.substreams == in_force(units, k, i + 1)
        }),
{
    let s = joined(units);
    lemma_piece(units, i);
    assert(whole_minor(units[i], declared(units[k])));
    assert(v.queued[0] == units[i].len());
    let w = v.next_queued().0;
    assert(w.pending =~= s.subrange(start_of(units, i + 1), n));
    assert(w.queued =~= lens(units, i + 1, k));
}

/// The verdict on the unit at the front of a clean stream.
proof fn lemma_locked_check(v: FramerView, units: Seq<Seq<u8>>, k: int, i: int, n: int)
    requires
        clean(units, k),
        k <= i < units.len(),
        start_of(units, i) <= n <= joined(units).len(),
        v.pending == joined(units).subrange(start_of(units, i), n),
        v.substreams == in_force(units, k, i),
    ensures
        check(v.pending, v.substreams as nat) == (if n >= start_of(units, i + 1) {
            Check::Valid { len: units[i].len() as usize, major: whole_major(units[i]) }
        } else {
            Check::NeedData
        }),
        n >= start_of(units, i + 1) && !opens_major_sync(v.pending) ==> header_parity(
            v.pending,
            v.substreams as nat,
            0,
        ) is Some,
        v.pending.len() >= MIN_AU_LEN ==> stated_len(v.pending) == units[i].len(),
{
    let s = joined(units);
    let u = units[i];
    let p = v.pending;
    lemma_piece(units, i);
    lemma_front(units, i, n);
    let end = start_of(units, i + 1);
    assert(whole_major(u) || whole_minor(u, v.substreams));
    assert(u.len() <= 8190);
    if n >= end {
        let more = s.subrange(end, n);
        lemma_opens_grows(u, more);
        if whole_major(u) {
            lemma_major_sync_grows(u, more);
        } else {
            lemma_parity_grows(u, more, v.substreams as nat, 0);
        }
    } else if p.len() >= MIN_AU_LEN {
        let rest = s.subrange(n, end);
        lemma_opens_grows(p, rest);
        if whole_major(u) {
            lemma_partial_major(u, p, rest);
        } else if header_parity(p, v.substreams as nat, 0) is Some {
            lemma_parity_grows(p, rest, v.substreams as nat, 0);
        }
    }
}

/// A unit of a clean stream handed out for decoding.
proof fn lemma_checked_unit(v: FramerView, units: Seq<Seq<u8>>, k: int, i: int, n: int)
    requires
        clean(units, k),
        k <= i < units.len(),
        start_of(units, i + 1) <= n <= joined(units).len(),
        v.pending == joined(units).subrange(start_of(units, i), n),
        v.consumed == start_of(units, i),
        v.ordinal == i,
        v.substreams == in_force(units, k, i),
    ensures
        ({
            let major = whole_major(units[i]);
            let (w, r) = v.next_checked(units[i].len() as int, major);
            &&& stated_len(v.pending) == units[i].len()
            &&& r == report(units, k, i)
            &&& w.pending == joined(units).subrange(start_of(units, i + 1), n)
            &&& w.consumed == start_of(units, i + 1)
            &&& w.ordinal == i + 1
            &&& w.substreams == in_force(units, k, i + 1)
        }),
{
    let s = joined(units);
    let u = units[i];
    lemma_piece(units, i);
    lemma_front(units, i, n);
    let more = s.subrange(start_of(units, i + 1), n);
    assert(whole_major(u) || whole_minor(u, v.substreams));
    lemma_opens_grows(u, more);
    if whole_major(u) {
        lemma_major_sync_grows(u, more);
    }
    assert(v.pending.take(u.len() as int) =~= u);
    assert(v.pending.skip(u.len() as int) =~= more);
}

/// Draining what there is of a clean stream: the units that are whole come out.
proof fn lemma_clean_drain(
    v: FramerView,
    units: Seq<Seq<u8>>,
    k: int,
    i: int,
    n: int,
    more: Seq<u8>,
) -> (j: int)
    requires
        clean(units, k),
        following(v, units, k, i, n),
    ensures
        i <= j,
        following(drain(v).0, units, k, j, n),
        drain(v).1 == reports(units, k, i, j),
        n == joined(units).len() ==> j == units.len(),
        quiet(v, more),
    decreases v.pending.len(),
{
    lemma_clean_step(v, units, k, i, n);
    assert(!verdict_turns(v, more));
    let (w, r) = v.next();
    if r is NeedData {
        assert(drain(v).1 =~= reports(units, k, i, i));
        i
    } else {
        lemma_piece(units, i);
        assert(units[i].len() > 0) by {
            if i < k {
                assert(whole_minor(units[i], declared(units[k])));
            } else if i > k {
                assert(whole_major(units[i]) || whole_minor(units[i], in_force(units, k, i)));
            }
        }
        assert(w.pending.len() < v.pending.len());
        let j = lemma_clean_drain(w, units, k, i + 1, n, more);
        assert(drain(v).1 =~= reports(units, k, i, j));
        j
    }
}

proof fn lemma_clean_fed(
    v: FramerView,
    units: Seq<Seq<u8>>,
    k: int,
    i: int,
    n: int,
    chunks: Seq<Seq<u8>>,
)
    requires
        clean(units, k),
        following(v, units, k, i, n),
        joined(chunks) == joined(units).skip(n),
        v.has_room(joined(chunks).len() as int),
        chunks.len() == 0 ==> i == units.len(),
    ensures
        fed(v, chunks).1 == reports(units, k, i, units.len() as int),
        following(fed(v, chunks).0, units, k, units.len() as int, joined(units).len() as int),
        undisturbed(v, chunks),
    decreases chunks.len(),
{
    let s = joined(units);
    if chunks.len() == 0 {
        assert(n == s.len());
        assert(fed(v, chunks).1 =~= reports(units, k, i, units.len() as int));
    } else {
        let first = chunks[0];
        let rest = chunks.skip(1);
        let m = n + first.len();
        let u = v.after_push(first);
        assert(first + joined(rest) == s.skip(n));
        assert((first + joined(rest)).len() == s.len() - n);
        assert(first =~= s.subrange(n, m)) by {
            assert((first + joined(rest)).take(first.len() as int) =~= first);
        }
        assert(joined(rest) =~= s.skip(m)) by {
            assert((first + joined(rest)).skip(first.len() as int) =~= joined(rest));
        }
        assert(u.pending =~= s.subrange(start_of(units, i), m));
        assert(following(u, units, k, i, m));
        assert(u.has_room(joined(rest).len() as int));
        let j = lemma_clean_drain(u, units, k, i, m, joined(rest));
        lemma_drain(u);
        let w = drain(u).0;
        assert(w.has_room(joined(rest).len() as int));
        if rest.len() == 0 {
            assert(joined(rest).len() == 0);
        }
        lemma_clean_fed(w, units, k, j, m, rest);
        assert(fed(v, chunks).1 =~= reports(units, k, i, units.len() as int));
    }
}

/// From an undamaged stream every access unit comes out, however it is cut into pushes: those in
/// front of the first major sync are reported as skipped, the major sync and those behind it
/// handed out with their bytes, each at its offset and under its ordinal, counted from zero.
/// Nothing is estimated, skipped or left, and nothing is decided before the bytes that matter are
/// there.
pub proof fn law_clean_stream(
    last: FramerView,
    units: Seq<Seq<u8>>,
    k: int,
    chunks: Seq<Seq<u8>>,
)
    requires
        last.valid(),
        clean(units, k),
        joined(chunks) == joined(units),
        last.after_reset().has_room(joined(units).len() as int),
    ensures
        ({
            let (w, out) = fed(last.after_reset(), chunks);
            &&& out == reports(units, k, 0, units.len() as int)
            &&& w.ordinal == units.len()
            &&& !w.estimated
            &&& w.sync_errors == 0
            &&& w.skipped_bytes == 0
            &&& w.pending.len() == 0
        }),
        undisturbed(last.after_reset(), chunks),
{
    let v = last.after_reset();
    let s = joined(units);
    lemma_piece(units, k);
    lemma_starts_grow(units, 0, k);
    lemma_split(units, units.len() as int);
    assert(v.pending =~= s.subrange(0, 0));
    assert(s.skip(0) =~= s);
    if chunks.len() == 0 {
        assert(s.len() == 0);
        assert(units[k].len() >= MIN_AU_LEN);
    }
    lemma_clean_fed(v, units, k, 0, 0, chunks);
}

/// Two framers that are given the same undamaged stream, cut into pushes in any two ways, report
/// the same.
pub proof fn law_clean_cuts(
    a: FramerView,
    b: FramerView,
    units: Seq<Seq<u8>>,
    k: int,
    chunks: Seq<Seq<u8>>,
    others: Seq<Seq<u8>>,
)
    requires
        a.valid(),
        b.valid(),
        clean(units, k),
        joined(chunks) == joined(units),
        joined(others) == joined(units),
        a.after_reset().has_room(joined(units).len() as int),
        b.after_reset().has_room(joined(units).len() as int),
    ensures
        fed(a.after_reset(), chunks).1 == fed(b.after_reset(), others).1,
        !fed(a.after_reset(), chunks).0.estimated,
        !fed(b.after_reset(), others).0.estimated,
{
    law_clean_stream(a, units, k, chunks);
    law_clean_stream(b, units, k, others);
}

/// A new framer is a reset one, so that all that holds from a reset on holds from creation on.
pub proof fn law_fresh_is_reset()
    ensures
        FramerView::fresh().valid(),
        FramerView::fresh().after_reset() == FramerView::fresh(),
{
}

} // verus!
