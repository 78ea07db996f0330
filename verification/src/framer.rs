//! Access-unit framing with an exact count of every access unit pushed.
//!
//! Until a major sync is found (after creation, reset, or damage) the bytes are kept. Once one
//! is found, the access units before it are recovered by chaining backwards: the earliest
//! position whose length fields lead, hop by hop and with valid header parity, exactly onto the
//! major sync starts the chain, and every access unit on it is reported (as skipped) with its
//! own ordinal. Only a leading fragment shorter than an access unit, the tail of one that began
//! before the first byte pushed, is left uncounted.
//!
//! A major sync counts only with a correct major sync info CRC and header parity, and every
//! other access unit's header nibble parity is checked against the substream count the last
//! major sync declared.

use crate::chain::{
    chain_start, first_chain, lemma_chain_tiles, lemma_first_chain, lemma_tiles_lens,
    lemma_total_concat, tiles, total, unit_lens, whole_units,
};
use crate::estimate::{estimate_aus, estimated_aus, lemma_estimate_bound};
use crate::header::{
    au_len, be32, header_parity, is_sync_word, major_sync, major_sync_at, opens_major_sync, parity,
    stated_len, MAX_AU_LEN, MIN_AU_LEN,
};
use vstd::prelude::*;
use vstd::slice::slice_subrange;

verus! {

/// Bytes kept from the scan position when no sync word is buffered: an access-unit header and
/// three bytes of a sync word.
pub const SCAN_KEEP: usize = 7;

/// Bytes retained while seeking a major sync before the oldest are let go (and the access units
/// in them estimated). FBA places a major sync at least every 128 access units.
pub const MAX_RETAINED: usize = 0x40_0000;

/// The most bytes that may pass through a framer between two resets, and in all access units
/// over its lifetime: what its 64-bit counters, and frame positions derived from them, can hold.
pub const MAX_STREAM_BYTES: u64 = 0x10_0000_0000_0000;

/// What is known of an access unit besides its bytes.
#[derive(Clone, Copy, PartialEq, Eq, Structural, Debug)]
pub struct AuInfo {
    /// Byte offset of the access unit's first byte, counted from the first byte pushed.
    pub offset: u64,
    /// Access units before this one since the framer was created or reset.
    pub ordinal: u64,
    pub major_sync: bool,
}

/// What the framer hands out next.
pub enum Next<'a> {
    /// A decodable access unit and its bytes.
    Au(AuInfo, &'a [u8]),
    /// An access unit before the first major sync after a seek or damage: counted, but it
    /// cannot be decoded.
    Skipped(AuInfo),
    NeedData,
}

/// `Next`, with the bytes as a sequence.
pub enum NextView {
    Au(AuInfo, Seq<u8>),
    Skipped(AuInfo),
    NeedData,
}

impl<'a> View for Next<'a> {
    type V = NextView;

    open spec fn view(&self) -> NextView {
        match self {
            Next::Au(info, bytes) => NextView::Au(*info, bytes@),
            Next::Skipped(info) => NextView::Skipped(*info),
            Next::NeedData => NextView::NeedData,
        }
    }
}

#[derive(Clone, Copy, PartialEq, Eq, Debug)]
enum State {
    Locked,
    /// Looking for a major sync. Bytes from the cursor on are kept; `scan` is the buffer index
    /// the search continues from. `after_damage`: the cursor is the start of an access unit
    /// that failed its checks, rather than wherever the caller's first push began.
    Seeking { scan: usize, after_damage: bool },
}

/// Whether the framer follows a chain of access units or looks for a major sync, with the
/// position in the pending bytes that the search continues from.
pub enum Lock {
    Locked,
    Seeking { scan: int, after_damage: bool },
}

/// The verdict on the access unit at the start of the pending bytes.
#[derive(Clone, Copy, PartialEq, Eq, Debug)]
pub enum Check {
    Valid { len: usize, major: bool },
    NeedData,
    Invalid,
}

/// Splits a byte stream into access units.
pub struct Framer {
    buf: Vec<u8>,
    cursor: usize,
    /// Stream offset of `buf[cursor]`.
    consumed: u64,
    state: State,
    /// Lengths of the access units recovered by chaining back from a major sync, to report.
    queued: Vec<usize>,
    queued_next: usize,
    /// Substream count declared by the last accepted major sync.
    substreams: usize,
    ordinal: u64,
    estimated: bool,
    /// Access units and their bytes framed since creation, for estimates.
    framed_aus: u64,
    framed_bytes: u64,
    sync_errors: u64,
    skipped_bytes: u64,
}

/// A framer as a mathematical value.
pub struct FramerView {
    /// Bytes pushed and not yet consumed.
    pub pending: Seq<u8>,
    /// Stream offset of the first pending byte.
    pub consumed: int,
    pub lock: Lock,
    /// Lengths of the access units at the start of `pending` still to be reported as skipped.
    pub queued: Seq<usize>,
    pub substreams: usize,
    pub ordinal: int,
    pub estimated: bool,
    pub framed_aus: int,
    pub framed_bytes: int,
    pub sync_errors: int,
    pub skipped_bytes: int,
}

impl View for Framer {
    type V = FramerView;

    closed spec fn view(&self) -> FramerView {
        FramerView {
            pending: self.buf@.skip(self.cursor as int),
            consumed: self.consumed as int,
            lock: match self.state {
                State::Locked => Lock::Locked,
                State::Seeking { scan, after_damage } => Lock::Seeking {
                    scan: scan - self.cursor,
                    after_damage,
                },
            },
            queued: self.queued@.skip(self.queued_next as int),
            substreams: self.substreams,
            ordinal: self.ordinal as int,
            estimated: self.estimated,
            framed_aus: self.framed_aus as int,
            framed_bytes: self.framed_bytes as int,
            sync_errors: self.sync_errors as int,
            skipped_bytes: self.skipped_bytes as int,
        }
    }
}

/// The verdict on the access unit at the start of `b`, when the last major sync declared
/// `substreams` substreams.
pub open spec fn check(b: Seq<u8>, substreams: nat) -> Check {
    let len = stated_len(b);
    if b.len() < MIN_AU_LEN {
        Check::NeedData
    } else if len < MIN_AU_LEN {
        Check::Invalid
    } else if opens_major_sync(b) {
        match major_sync(b) {
            None => Check::NeedData,
            Some(None) => Check::Invalid,
            Some(Some(_)) => Check::Valid { len: len as usize, major: true },
        }
    } else {
        match header_parity(b, substreams, 0) {
            Some(false) => Check::Invalid,
            Some(true) => if b.len() >= len {
                Check::Valid { len: len as usize, major: false }
            } else {
                Check::NeedData
            },
            None => if b.len() >= len {
                Check::Invalid
            } else {
                Check::NeedData
            },
        }
    }
}

/// Whether an access unit with a sync word starts at `c`, and has not been found invalid.
pub open spec fn sync_candidate(b: Seq<u8>, c: int) -> bool {
    opens_major_sync(b.skip(c)) && major_sync(b.skip(c)) != Some(None::<usize>)
}

/// The first candidate for a major sync from position `from` on.
pub open spec fn find_sync(b: Seq<u8>, from: int) -> Option<int>
    decreases b.len() - from,
{
    if from + MIN_AU_LEN > b.len() {
        None
    } else if sync_candidate(b, from) {
        Some(from)
    } else {
        find_sync(b, from + 1)
    }
}

impl FramerView {
    /// What every operation keeps.
    pub open spec fn valid(self) -> bool {
        &&& self.consistent()
        &&& 0 <= self.sync_errors
        &&& self.sync_errors <= self.consumed + (if self.damaged() {
            1int
        } else {
            0
        })
    }

    /// Whether the first pending byte starts an access unit that failed its checks.
    pub open spec fn damaged(self) -> bool {
        self.lock matches Lock::Seeking { after_damage, .. } && after_damage
    }

    /// What every operation keeps, apart from the bound on sync errors.
    pub open spec fn consistent(self) -> bool {
        &&& 0 <= self.consumed
        &&& self.consumed + self.pending.len() <= MAX_STREAM_BYTES
        &&& 0 <= self.framed_aus
        &&& 8 * self.framed_aus <= self.framed_bytes
        &&& self.framed_bytes + self.pending.len() <= MAX_STREAM_BYTES
        &&& 0 <= self.ordinal <= 4 * self.consumed
        &&& 0 <= self.skipped_bytes <= self.consumed
        &&& self.substreams <= 15
        &&& match self.lock {
            Lock::Locked => {
                &&& total(self.queued) <= self.pending.len()
                &&& forall|i: int|
                    0 <= i < self.queued.len() ==> #[trigger] self.queued[i] >= MIN_AU_LEN
            },
            Lock::Seeking { scan, .. } => {
                &&& 0 <= scan <= self.pending.len()
                &&& self.queued.len() == 0
            },
        }
    }

    /// A framer that has seen nothing.
    pub open spec fn fresh() -> FramerView {
        FramerView {
            pending: Seq::empty(),
            consumed: 0,
            lock: Lock::Seeking { scan: 0, after_damage: false },
            queued: Seq::empty(),
            substreams: 0,
            ordinal: 0,
            estimated: false,
            framed_aus: 0,
            framed_bytes: 0,
            sync_errors: 0,
            skipped_bytes: 0,
        }
    }

    /// All buffered bytes dropped and counting restarted; what was learnt of the stream (its
    /// substream count and average access-unit length) stays.
    pub open spec fn after_reset(self) -> FramerView {
        FramerView {
            substreams: self.substreams,
            framed_aus: self.framed_aus,
            framed_bytes: self.framed_bytes,
            ..FramerView::fresh()
        }
    }

    /// `data` appended.
    pub open spec fn after_push(self, data: Seq<u8>) -> FramerView {
        FramerView { pending: self.pending + data, ..self }
    }

    /// Whether `more` bytes can still be pushed.
    pub open spec fn has_room(self, more: int) -> bool {
        &&& self.consumed + self.pending.len() + more <= MAX_STREAM_BYTES
        &&& self.framed_bytes + self.pending.len() + more <= MAX_STREAM_BYTES
    }

    /// The access unit of `len` bytes at the start of the pending bytes handed out.
    pub open spec fn take_unit(self, len: int) -> FramerView {
        FramerView {
            pending: self.pending.skip(len),
            consumed: self.consumed + len,
            ordinal: self.ordinal + 1,
            framed_aus: self.framed_aus + 1,
            framed_bytes: self.framed_bytes + len,
            ..self
        }
    }

    /// Facts about the access unit at the start of the pending bytes.
    pub open spec fn info(self, major_sync: bool) -> AuInfo {
        AuInfo { offset: self.consumed as u64, ordinal: self.ordinal as u64, major_sync }
    }

    /// The next queued access unit reported as skipped.
    pub open spec fn next_queued(self) -> (FramerView, NextView) {
        (
            FramerView { queued: self.queued.skip(1), ..self.take_unit(self.queued[0] as int) },
            NextView::Skipped(self.info(false)),
        )
    }

    /// The access unit at the start of the pending bytes handed out for decoding. A major sync
    /// also updates the substream count that the following access units are checked against.
    pub open spec fn next_checked(self, len: int, major: bool) -> (FramerView, NextView) {
        (
            FramerView {
                substreams: if major {
                    major_sync(self.pending).unwrap().unwrap()
                } else {
                    self.substreams
                },
                ..self.take_unit(len)
            },
            NextView::Au(self.info(major), self.pending.take(len)),
        )
    }

    /// `bytes` bytes let go; `counted` access units assumed in them, if any.
    pub open spec fn drop_bytes(self, bytes: int, counted: Option<nat>) -> FramerView {
        FramerView {
            pending: self.pending.skip(bytes),
            consumed: self.consumed + bytes,
            skipped_bytes: self.skipped_bytes + bytes,
            ordinal: self.ordinal + counted.unwrap_or(0),
            estimated: self.estimated || counted.is_some(),
            ..self
        }
    }

    /// The number of access units that `bytes` bytes are taken to hold.
    pub open spec fn estimate(self, bytes: int) -> nat {
        estimated_aus(bytes as nat, self.framed_aus as nat, self.framed_bytes as nat)
    }

    /// Locked onto the major sync at `sync`, with the access units in front of it queued.
    ///
    /// The bytes in front of the chain, if their own length fields lead exactly onto it, are
    /// whole access units that failed their checks: each is queued too, and the count flagged
    /// as unverified. Otherwise, after damage or when too long to be a fragment, they are
    /// estimated; else they are the tail of an access unit that began before the first byte
    /// pushed, and not counted.
    pub open spec fn chain_back(self, sync: int, after_damage: bool) -> FramerView {
        let region = self.pending.take(sync);
        let first = first_chain(region, 0, self.substreams as nat);
        let front = region.take(first);
        let chain = unit_lens(region, first);
        let locked = FramerView { lock: Lock::Locked, ..self };
        if first == 0 {
            FramerView { queued: chain, ..locked }
        } else if tiles(front, 0) {
            FramerView {
                queued: unit_lens(front, 0) + chain,
                estimated: true,
                sync_errors: self.sync_errors + (if after_damage {
                    0int
                } else {
                    1
                }),
                ..locked
            }
        } else {
            let counted: Option<nat> = if after_damage || first > MAX_AU_LEN {
                Some(if self.estimate(first) >= 1 { self.estimate(first) } else { 1 })
            } else {
                None
            };
            FramerView { queued: chain, ..locked.drop_bytes(first, counted) }
        }
    }

    /// The search for a major sync carried on from `scan`, and whether one was found.
    pub open spec fn seek(self, scan: int, after_damage: bool) -> (FramerView, bool) {
        match find_sync(self.pending, scan) {
            None => {
                let len = self.pending.len();
                let resume: int = if len - SCAN_KEEP > scan { len - SCAN_KEEP } else { scan };
                if resume > MAX_RETAINED {
                    (
                        FramerView {
                            lock: Lock::Seeking { scan: 0, after_damage },
                            ..self.drop_bytes(resume, Some(self.estimate(resume)))
                        },
                        false,
                    )
                } else {
                    (
                        FramerView { lock: Lock::Seeking { scan: resume, after_damage }, ..self },
                        false,
                    )
                }
            },
            Some(c) => match major_sync(self.pending.skip(c)) {
                Some(Some(substreams)) => (
                    FramerView { substreams, ..self }.chain_back(c, after_damage),
                    true,
                ),
                _ => (FramerView { lock: Lock::Seeking { scan: c, after_damage }, ..self }, false),
            },
        }
    }

    /// What the search for a major sync leads to: the first access unit recovered, or the major
    /// sync itself, or a wait for more bytes.
    pub open spec fn next_sought(self, scan: int, after_damage: bool) -> (FramerView, NextView) {
        let (v, found) = self.seek(scan, after_damage);
        if !found {
            (v, NextView::NeedData)
        } else if v.queued.len() > 0 {
            v.next_queued()
        } else {
            v.next_checked(stated_len(v.pending), true)
        }
    }

    /// What the framer hands out next. A damaged access unit in a locked chain counts as a sync
    /// error, and the search for the next major sync starts one byte into it.
    #[verifier::opaque]
    pub open spec fn next(self) -> (FramerView, NextView) {
        if self.queued.len() > 0 {
            self.next_queued()
        } else {
            match self.lock {
                Lock::Seeking { scan, after_damage } => self.next_sought(scan, after_damage),
                Lock::Locked => match check(self.pending, self.substreams as nat) {
                    Check::Valid { len, major } => self.next_checked(len as int, major),
                    Check::NeedData => (self, NextView::NeedData),
                    Check::Invalid => FramerView {
                        sync_errors: self.sync_errors + 1,
                        ..self
                    }.next_sought(1, true),
                },
            }
        }
    }
}

/// `find_sync` is the first candidate.
pub proof fn lemma_find_sync(b: Seq<u8>, from: int)
    requires
        0 <= from,
    ensures
        match find_sync(b, from) {
            Some(c) => {
                &&& from <= c
                &&& c + MIN_AU_LEN <= b.len()
                &&& sync_candidate(b, c)
                &&& forall|q: int| from <= q < c ==> !#[trigger] sync_candidate(b, q)
            },
            None => forall|q: int|
                from <= q <= b.len() - MIN_AU_LEN ==> !#[trigger] sync_candidate(b, q),
        },
    decreases b.len() - from,
{
    if from + MIN_AU_LEN <= b.len() && !sync_candidate(b, from) {
        lemma_find_sync(b, from + 1);
    }
}

pub proof fn lemma_find_sync_is(b: Seq<u8>, from: int, c: int)
    requires
        0 <= from <= c,
        forall|q: int| from <= q < c ==> !#[trigger] sync_candidate(b, q),
    ensures
        find_sync(b, from) == find_sync(b, c),
    decreases c - from,
{
    if from < c {
        assert(!sync_candidate(b, from));
        lemma_find_sync_is(b, from + 1, c);
        if from + MIN_AU_LEN > b.len() {
            assert(find_sync(b, c) is None);
        }
    }
}

/// Chaining back keeps the invariant, but for a sync error that the next access unit absorbs,
/// and leaves either a queue or the major sync itself at the front.
pub proof fn lemma_chain_back(v: FramerView, sync: int, after_damage: bool)
    requires
        v.valid(),
        0 <= sync <= v.pending.len(),
        v.lock is Seeking,
        v.sync_errors <= v.consumed + (if after_damage {
            1int
        } else {
            0
        }),
        major_sync(v.pending.skip(sync)) matches Some(Some(_)),
        opens_major_sync(v.pending.skip(sync)),
    ensures
        ({
            let w = v.chain_back(sync, after_damage);
            &&& w.consistent()
            &&& 0 <= w.sync_errors <= w.consumed + 1
            &&& w.lock is Locked
            &&& w.pending.len() >= MIN_AU_LEN
            &&& w.queued.len() == 0 ==> w.pending == v.pending.skip(sync)
        }),
{
    let region = v.pending.take(sync);
    let subs = v.substreams as nat;
    let first = first_chain(region, 0, subs);
    let front = region.take(first);
    let chain = unit_lens(region, first);
    lemma_first_chain(region, 0, subs);
    if first < sync {
        lemma_chain_tiles(region, first, subs);
    }
    lemma_tiles_lens(region, first);
    let w = v.chain_back(sync, after_damage);
    if first == 0 {
        assert(v.pending.skip(0) =~= v.pending);
    } else if tiles(front, 0) {
        lemma_tiles_lens(front, 0);
        lemma_total_concat(unit_lens(front, 0), chain);
        assert forall|i: int| 0 <= i < w.queued.len() implies #[trigger] w.queued[i]
            >= MIN_AU_LEN by {
            let a = unit_lens(front, 0);
            if i < a.len() {
                assert(w.queued[i] == a[i]);
            } else {
                assert(w.queued[i] == chain[i - a.len()]);
            }
        }
    } else {
        lemma_estimate_bound(first as nat, v.framed_aus as nat, v.framed_bytes as nat);
        assert(first == sync ==> w.pending == v.pending.skip(sync));
    }
}

pub proof fn lemma_total_nonneg(lens: Seq<usize>)
    ensures
        total(lens) >= 0,
    decreases lens.len(),
{
    if lens.len() > 0 {
        lemma_total_nonneg(lens.drop_first());
    }
}

/// Whether a whole, valid major sync access unit that declares `substreams` substreams stands at
/// the start of `b`.
pub open spec fn ready(b: Seq<u8>, substreams: usize) -> bool {
    &&& opens_major_sync(b)
    &&& major_sync(b) == Some(Some(substreams))
    &&& substreams <= 15
    &&& MIN_AU_LEN <= stated_len(b) <= b.len()
}

pub proof fn lemma_sync_substreams(b: Seq<u8>)
    ensures
        major_sync(b) matches Some(Some(n)) ==> n <= 15,
{
}

pub proof fn lemma_sync_ready(b: Seq<u8>)
    requires
        opens_major_sync(b),
        major_sync(b) matches Some(Some(_)),
    ensures
        ready(b, major_sync(b).unwrap().unwrap()),
{
}

/// Tiling and lengths do not depend on what stands in front.
proof fn lemma_tiles_shift(region: Seq<u8>, base: int, p: int)
    requires
        0 <= base,
        0 <= p,
        base + p <= region.len(),
    ensures
        tiles(region.skip(base), p) == tiles(region, base + p),
        unit_lens(region.skip(base), p) == unit_lens(region, base + p),
    decreases region.len() - base - p,
{
    let part = region.skip(base);
    assert(part.skip(p) =~= region.skip(base + p));
    let len = stated_len(part.skip(p));
    if p < part.len() && len >= MIN_AU_LEN && p + len <= part.len() {
        lemma_tiles_shift(region, base, p + len);
    }
}

/// The search depends on where it is told to start, not on the lock it replaces.
pub proof fn lemma_lock_irrelevant(v: FramerView, w: FramerView, scan: int, after_damage: bool)
    requires
        w == (FramerView { lock: w.lock, ..v }),
    ensures
        v.next_sought(scan, after_damage) == w.next_sought(scan, after_damage),
{
}

/// Handing out one access unit keeps the invariant and pays for one sync error.
pub proof fn lemma_take_unit(v: FramerView, len: int, substreams: usize, queued: Seq<usize>)
    requires
        v.consistent(),
        0 <= v.sync_errors <= v.consumed + 1,
        v.lock is Locked,
        MIN_AU_LEN <= len <= v.pending.len(),
        substreams <= 15,
        total(queued) <= v.pending.len() - len,
        forall|i: int| 0 <= i < queued.len() ==> #[trigger] queued[i] >= MIN_AU_LEN,
    ensures
        (FramerView { substreams, queued, ..v.take_unit(len) }).valid(),
{
}

impl Default for Framer {
    fn default() -> (r: Framer)
        ensures
            r.inv(),
            r@ == FramerView::fresh(),
    {
        let r = Framer {
            buf: Vec::new(),
            cursor: 0,
            consumed: 0,
            state: State::Seeking { scan: 0, after_damage: false },
            queued: Vec::new(),
            queued_next: 0,
            substreams: 0,
            ordinal: 0,
            estimated: false,
            framed_aus: 0,
            framed_bytes: 0,
            sync_errors: 0,
            skipped_bytes: 0,
        };
        proof {
            assert(r@.pending =~= Seq::<u8>::empty());
            assert(r@.queued =~= Seq::<usize>::empty());
        }
        r
    }
}

impl Framer {
    /// The positions lie within their buffers, and the framer's value is a valid one.
    pub closed spec fn inv(&self) -> bool {
        &&& self.cursor <= self.buf.len()
        &&& self.queued_next <= self.queued.len()
        &&& self@.valid()
    }

    /// A framer's value is always a valid one.
    pub proof fn lemma_valid(&self)
        requires
            self.inv(),
        ensures
            self@.valid(),
    {
    }

    /// Drops all buffered bytes and restarts counting; the next byte pushed is offset 0.
    pub fn reset(&mut self)
        requires
            old(self).inv(),
        ensures
            final(self).inv(),
            final(self)@ == old(self)@.after_reset(),
    {
        self.buf.clear();
        self.cursor = 0;
        self.consumed = 0;
        self.state = State::Seeking { scan: 0, after_damage: false };
        self.queued.clear();
        self.queued_next = 0;
        self.ordinal = 0;
        self.estimated = false;
        self.sync_errors = 0;
        self.skipped_bytes = 0;
        proof {
            assert(self@.pending =~= Seq::<u8>::empty());
            assert(self@.queued =~= Seq::<usize>::empty());
        }
    }

    /// Appends bytes of the stream.
    pub fn push(&mut self, data: &[u8])
        requires
            old(self).inv(),
            old(self)@.has_room(data.len() as int),
        ensures
            final(self).inv(),
            final(self)@ == old(self)@.after_push(data@),
    {
        self.compact();
        let ghost before = self.buf@;
        self.buf.extend_from_slice(data);
        proof {
            assert(self.buf@ =~= before + data@);
            assert(self@.pending =~= old(self)@.pending + data@);
        }
    }

    /// Bytes pushed but not yet consumed.
    pub fn pending(&self) -> (n: usize)
        requires
            self.inv(),
        ensures
            n == self@.pending.len(),
    {
        self.buf.len() - self.cursor
    }

    /// Whether any ordinal handed out since reset rests on an estimate.
    pub fn estimated(&self) -> (r: bool)
        ensures
            r == self@.estimated,
    {
        self.estimated
    }

    /// Sync losses since reset.
    pub fn sync_errors(&self) -> (n: u64)
        ensures
            n == self@.sync_errors,
    {
        self.sync_errors
    }

    /// Bytes skipped as not belonging to any access unit since reset.
    pub fn skipped_bytes(&self) -> (n: u64)
        ensures
            n == self@.skipped_bytes,
    {
        self.skipped_bytes
    }

    /// Whether `more` bytes can still be pushed.
    pub fn has_room(&self, more: usize) -> (r: bool)
        requires
            self.inv(),
        ensures
            r == self@.has_room(more as int),
    {
        let pending: u64 = (self.buf.len() - self.cursor) as u64;
        more as u64 <= MAX_STREAM_BYTES - pending - self.consumed && more as u64
            <= MAX_STREAM_BYTES - pending - self.framed_bytes
    }

    /// Whether the bytes in front of the cursor are a large part of the buffer: 64 KiB, or half.
    spec fn oversized(&self) -> bool {
        self.cursor > 0 && (self.cursor >= 0x1_0000 || 2 * self.cursor >= self.buf@.len())
    }

    /// Lets go of consumed bytes once they are a large part of the buffer.
    fn compact(&mut self)
        requires
            old(self).inv(),
        ensures
            final(self).inv(),
            final(self)@ == old(self)@,
            old(self).oversized() ==> {
                &&& final(self).buf@ == old(self).buf@.skip(old(self).cursor as int)
                &&& final(self).cursor == 0
            },
            !old(self).oversized() ==> *final(self) == *old(self),
    {
        if self.cursor == 0 {
            return;
        }
        if self.cursor >= 0x1_0000 || self.cursor >= self.buf.len() - self.cursor {
            let rest: Vec<u8> = self.buf.split_off(self.cursor);
            self.buf = rest;
            if let State::Seeking { scan, after_damage } = self.state {
                self.state = State::Seeking { scan: scan - self.cursor, after_damage };
            }
            self.cursor = 0;
            proof {
                assert(self@.pending =~= old(self)@.pending);
                assert(self@ == old(self)@);
            }
        }
    }

    /// Hands out the `len` pending bytes at the cursor, with their ordinal.
    fn take_unit(&mut self, len: usize, major_sync: bool) -> (info: AuInfo)
        requires
            old(self).cursor + len <= old(self).buf.len(),
            old(self).queued_next <= old(self).queued.len(),
            old(self)@.consistent(),
            old(self)@.lock is Locked,
        ensures
            final(self)@ == old(self)@.take_unit(len as int),
            info == old(self)@.info(major_sync),
            final(self).buf == old(self).buf,
            final(self).cursor == old(self).cursor + len,
            final(self).queued == old(self).queued,
            final(self).queued_next == old(self).queued_next,
    {
        let info = AuInfo { offset: self.consumed, ordinal: self.ordinal, major_sync };
        self.ordinal = self.ordinal + 1;
        self.framed_aus = self.framed_aus + 1;
        self.framed_bytes = self.framed_bytes + len as u64;
        self.cursor = self.cursor + len;
        self.consumed = self.consumed + len as u64;
        proof {
            assert(self@.pending =~= old(self)@.pending.skip(len as int));
        }
        info
    }

    /// Checks the access unit at the cursor in the locked chain. A valid major sync updates the
    /// substream count the following access units are checked against.
    fn check_at(&mut self) -> (r: Check)
        requires
            old(self).cursor <= old(self).buf.len(),
            old(self)@.substreams <= 15,
        ensures
            r == check(old(self)@.pending, old(self)@.substreams as nat),
            final(self)@ == (FramerView {
                substreams: if r matches Check::Valid { major, .. } && major {
                    major_sync(old(self)@.pending).unwrap().unwrap()
                } else {
                    old(self)@.substreams
                },
                ..old(self)@
            }),
            final(self).buf == old(self).buf,
            final(self).cursor == old(self).cursor,
            final(self).queued == old(self).queued,
            final(self).queued_next == old(self).queued_next,
    {
        let b = slice_subrange(self.buf.as_slice(), self.cursor, self.buf.len());
        proof {
            assert(b@ =~= self@.pending);
        }
        if b.len() < MIN_AU_LEN {
            return Check::NeedData;
        }
        let len: usize = au_len(b);
        if len < MIN_AU_LEN {
            return Check::Invalid;
        }
        if is_sync_word(be32(slice_subrange(b, 4, 8))) {
            match major_sync_at(b) {
                Some(Some(substreams)) => {
                    self.substreams = substreams;
                    Check::Valid { len, major: true }
                },
                Some(None) => Check::Invalid,
                None => Check::NeedData,
            }
        } else {
            let whole: bool = b.len() >= len;
            match parity(b, self.substreams, 0) {
                Some(true) => if whole {
                    Check::Valid { len, major: false }
                } else {
                    Check::NeedData
                },
                Some(false) => Check::Invalid,
                None => if whole {
                    Check::Invalid
                } else {
                    Check::NeedData
                },
            }
        }
    }

    /// Lets go of `bytes` pending bytes.
    fn drop_bytes(&mut self, bytes: usize, counted: Option<u64>)
        requires
            old(self).cursor + bytes <= old(self).buf.len(),
            old(self).queued_next <= old(self).queued.len(),
            old(self)@.consumed + bytes <= MAX_STREAM_BYTES,
            old(self)@.skipped_bytes <= old(self)@.consumed,
            old(self)@.ordinal <= 4 * old(self)@.consumed,
            counted matches Some(n) ==> n <= 4 * bytes,
        ensures
            final(self)@ == (FramerView {
                lock: final(self)@.lock,
                ..old(self)@.drop_bytes(
                    bytes as int,
                    (if counted is Some {
                        Some(counted->0 as nat)
                    } else {
                        None
                    }),
                )
            }),
            final(self).buf == old(self).buf,
            final(self).cursor == old(self).cursor + bytes,
            final(self).queued == old(self).queued,
            final(self).queued_next == old(self).queued_next,
            final(self).state == old(self).state,
    {
        if let Some(n) = counted {
            self.ordinal = self.ordinal + n;
            self.estimated = true;
        }
        self.skipped_bytes = self.skipped_bytes + bytes as u64;
        self.cursor = self.cursor + bytes;
        self.consumed = self.consumed + bytes as u64;
        proof {
            assert(self@.pending =~= old(self)@.pending.skip(bytes as int));
        }
    }

    /// Recovers the access units between the cursor and the major sync `sync` bytes behind it,
    /// queues them, and consumes the fragment in front of them.
    fn chain_back(&mut self, sync: usize, after_damage: bool)
        requires
            old(self).cursor + sync <= old(self).buf.len(),
            old(self).queued_next <= old(self).queued.len(),
            old(self)@.consistent(),
            old(self)@.lock is Seeking,
            0 <= old(self)@.sync_errors <= old(self)@.consumed + 1,
        ensures
            final(self)@ == old(self)@.chain_back(sync as int, after_damage),
            final(self).buf == old(self).buf,
            final(self).cursor <= final(self).buf.len(),
            final(self).queued_next <= final(self).queued.len(),
    {
        let region = slice_subrange(self.buf.as_slice(), self.cursor, self.cursor + sync);
        let ghost v = self@;
        proof {
            assert(region@ =~= v.pending.take(sync as int));
            lemma_first_chain(region@, 0, v.substreams as nat);
        }
        let first: usize = chain_start(region, self.substreams);
        proof {
            if first < sync {
                lemma_chain_tiles(region@, first as int, v.substreams as nat);
            }
            lemma_tiles_shift(region@, first as int, 0);
            assert(region@.skip(first as int) =~= region@.subrange(first as int, sync as int));
        }
        let mut chain: Vec<usize> = match whole_units(slice_subrange(region, first, sync)) {
            Some(lens) => lens,
            None => Vec::new(),
        };
        let front = slice_subrange(region, 0, first);
        proof {
            assert(front@ =~= region@.take(first as int));
        }
        self.state = State::Locked;
        if first == 0 {
            self.queued = chain;
            self.queued_next = 0;
            proof {
                assert(self@.queued =~= chain@);
            }
            return;
        }
        match whole_units(front) {
            Some(mut lens) => {
                if !after_damage {
                    self.sync_errors = self.sync_errors + 1;
                }
                self.estimated = true;
                let ghost own = lens@;
                lens.append(&mut chain);
                self.queued = lens;
                self.queued_next = 0;
                proof {
                    assert(self@.queued =~= own + unit_lens(region@, first as int));
                }
            },
            None => {
                let counted: Option<u64> = if after_damage || first > MAX_AU_LEN {
                    let n: u64 = estimate_aus(first as u64, self.framed_aus, self.framed_bytes);
                    Some(if n >= 1 { n } else { 1 })
                } else {
                    None
                };
                self.queued = chain;
                self.queued_next = 0;
                let ghost mid = self@;
                self.drop_bytes(first, counted);
                proof {
                    assert(mid.queued =~= unit_lens(region@, first as int));
                }
            },
        }
    }

    /// Searches for a major sync from `scan` bytes behind the cursor, keeping every byte from
    /// the cursor. Returns true once locked (with the access units before the sync queued).
    fn seek(&mut self, scan: usize, after_damage: bool) -> (found: bool)
        requires
            old(self).cursor <= old(self).buf.len(),
            old(self).queued_next <= old(self).queued.len(),
            old(self)@.valid(),
            old(self)@.lock is Seeking,
            scan <= old(self)@.pending.len(),
            old(self)@.sync_errors <= old(self)@.consumed + (if after_damage {
                1int
            } else {
                0
            }),
        ensures
            (final(self)@, found) == old(self)@.seek(scan as int, after_damage),
            final(self).buf == old(self).buf,
            final(self).cursor <= final(self).buf.len(),
            final(self).queued_next <= final(self).queued.len(),
            !found ==> final(self).inv(),
            found ==> {
                &&& final(self)@.consistent()
                &&& 0 <= final(self)@.sync_errors <= final(self)@.consumed + 1
                &&& final(self)@.lock is Locked
                &&& final(self)@.queued.len() == 0 ==> ready(
                    final(self)@.pending,
                    final(self)@.substreams,
                )
            },
    {
        let ghost v = self@;
        let ghost p = self@.pending;
        let n: usize = self.buf.len() - self.cursor;
        let mut c: usize = scan;
        while n - c >= MIN_AU_LEN
            invariant
                scan <= c <= n,
                n == self.buf.len() - self.cursor,
                self.cursor <= self.buf.len(),
                self.queued_next <= self.queued.len(),
                *self == *old(self),
                v == self@,
                p == v.pending,
                p.len() == n,
                v.valid(),
                v.lock is Seeking,
                v.sync_errors <= v.consumed + (if after_damage {
                    1int
                } else {
                    0
                }),
                find_sync(p, c as int) == find_sync(p, scan as int),
            decreases n - c,
        {
            // A candidate access unit start `c` has its sync word at c + 4.
            let at: usize = self.cursor + c;
            let word = slice_subrange(self.buf.as_slice(), at + 4, at + 8);
            let b = slice_subrange(self.buf.as_slice(), at, self.buf.len());
            proof {
                assert(b@ =~= p.skip(c as int));
                assert(word@ =~= b@.subrange(4, 8));
            }
            if is_sync_word(be32(word)) {
                match major_sync_at(b) {
                    None => {
                        self.state = State::Seeking { scan: at, after_damage };
                        proof {
                            assert(self@.pending =~= p);
                        }
                        return false;
                    },
                    Some(None) => {},
                    Some(Some(substreams)) => {
                        self.substreams = substreams;
                        proof {
                            lemma_sync_ready(b@);
                            lemma_chain_back(self@, c as int, after_damage);
                        }
                        self.chain_back(c, after_damage);
                        return true;
                    },
                }
            }
            c = c + 1;
        }
        let resume: usize = if n > SCAN_KEEP && n - SCAN_KEEP > scan {
            n - SCAN_KEEP
        } else {
            scan
        };
        // Let the oldest bytes go if nothing has turned up for this long.
        if resume > MAX_RETAINED {
            proof {
                lemma_estimate_bound(resume as nat, v.framed_aus as nat, v.framed_bytes as nat);
            }
            let n: u64 = estimate_aus(resume as u64, self.framed_aus, self.framed_bytes);
            self.drop_bytes(resume, Some(n));
            self.state = State::Seeking { scan: self.cursor, after_damage };
        } else {
            self.state = State::Seeking { scan: self.cursor + resume, after_damage };
        }
        false
    }

    /// Reports the next queued access unit.
    fn next_queued(&mut self) -> (info: AuInfo)
        requires
            old(self).cursor <= old(self).buf.len(),
            old(self).queued_next < old(self).queued.len(),
            old(self)@.consistent(),
            0 <= old(self)@.sync_errors <= old(self)@.consumed + 1,
        ensures
            (final(self)@, NextView::Skipped(info)) == old(self)@.next_queued(),
            final(self).inv(),
    {
        let ghost v = self@;
        let len: usize = self.queued[self.queued_next];
        proof {
            assert(v.queued[0] == len);
            assert(v.queued.skip(1) =~= v.queued.drop_first());
            lemma_total_nonneg(v.queued.skip(1));
            lemma_take_unit(v, len as int, v.substreams, v.queued.skip(1));
        }
        self.queued_next = self.queued_next + 1;
        proof {
            assert(self@.queued =~= v.queued.skip(1));
        }
        self.take_unit(len, false)
    }

    /// Carries the search for a major sync on, and hands out the first access unit it leads to.
    fn next_sought(&mut self, scan: usize, after_damage: bool) -> (r: Next<'_>)
        requires
            old(self).cursor <= old(self).buf.len(),
            old(self).queued_next <= old(self).queued.len(),
            old(self)@.valid(),
            old(self)@.lock is Seeking,
            scan <= old(self)@.pending.len(),
            old(self)@.sync_errors <= old(self)@.consumed + (if after_damage {
                1int
            } else {
                0
            }),
        ensures
            (final(self)@, r@) == old(self)@.next_sought(scan as int, after_damage),
            final(self).inv(),
    {
        if !self.seek(scan, after_damage) {
            return Next::NeedData;
        }
        if self.queued_next < self.queued.len() {
            let info = self.next_queued();
            return Next::Skipped(info);
        }
        let ghost v = self@;
        let at: usize = self.cursor;
        let b = slice_subrange(self.buf.as_slice(), at, self.buf.len());
        proof {
            assert(v.queued =~= Seq::<usize>::empty());
            assert(b@ =~= v.pending);
        }
        let len: usize = au_len(b);
        proof {
            lemma_take_unit(v, len as int, v.substreams, v.queued);
            assert(self.buf@.subrange(at as int, at + len) =~= v.pending.take(len as int));
        }
        let info = self.take_unit(len, true);
        Next::Au(info, slice_subrange(self.buf.as_slice(), at, at + len))
    }

    /// Hands out the next access unit.
    pub fn next(&mut self) -> (r: Next<'_>)
        requires
            old(self).inv(),
        ensures
            (final(self)@, r@) == old(self)@.next(),
            final(self).inv(),
    {
        proof {
            reveal(FramerView::next);
        }
        if self.queued_next < self.queued.len() {
            let info = self.next_queued();
            return Next::Skipped(info);
        }
        let ghost v = self@;
        proof {
            assert(v.queued =~= Seq::<usize>::empty());
        }
        match self.state {
            State::Seeking { scan, after_damage } => {
                return self.next_sought(scan - self.cursor, after_damage);
            },
            State::Locked => {},
        }
        let at: usize = self.cursor;
        match self.check_at() {
            Check::Valid { len, major } => {
                proof {
                    lemma_sync_substreams(v.pending);
                    lemma_take_unit(v, len as int, self@.substreams, v.queued);
                    assert(self.buf@.subrange(at as int, at + len) =~= v.pending.take(len as int));
                }
                let info = self.take_unit(len, major);
                Next::Au(info, slice_subrange(self.buf.as_slice(), at, at + len))
            },
            Check::NeedData => Next::NeedData,
            Check::Invalid => {
                self.sync_errors = self.sync_errors + 1;
                self.state = State::Seeking { scan: at + 1, after_damage: true };
                let ghost w = self@;
                proof {
                    assert(w.pending =~= v.pending);
                    lemma_lock_irrelevant(
                        FramerView { sync_errors: v.sync_errors + 1, ..v },
                        w,
                        1,
                        true,
                    );
                }
                self.next_sought(1, true)
            },
        }
    }
}

} // verus!
