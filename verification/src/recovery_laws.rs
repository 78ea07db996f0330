//! What the framer recovers in front of a major sync, stated of access units put together part by
//! part: which bytes are access units, which are a fragment, and how each is counted.

use crate::chain::{
    chains, first_chain, lemma_first_chain, lemma_tiles_lens, tiles, unit_at, unit_lens,
};
use crate::estimate::estimated_aus;
use crate::framer::{
    find_sync, lemma_find_sync, lemma_find_sync_is, sync_candidate, AuInfo, FramerView, Lock,
    NextView,
};
use crate::framer_laws::lemma_parity_grows;
use crate::header::{directory_end, header_parity, major_sync, opens_major_sync, stated_len};
use crate::unit_laws::{
    is_entry, law_major_sync, law_major_sync_waits, lemma_major_bytes, lemma_minor_bytes,
    lemma_parity, nibbles, words, MajorParts, MinorParts,
};
use vstd::prelude::*;

verus! {

/// Access units without a major sync, put together one after the other.
pub open spec fn laid_end_to_end(units: Seq<MinorParts>) -> Seq<u8> {
    units.map_values(|u: MinorParts| u.bytes()).flatten()
}

/// Whether all units hold, in a stream of `substreams` substreams.
pub open spec fn all_hold(units: Seq<MinorParts>, substreams: nat) -> bool {
    forall|i: int|
        0 <= i < units.len() ==> (#[trigger] units[i]).laid_out() && units[i].parity_holds()
            && units[i].directory.len() == substreams
}

/// Whether `b` is nothing but access units without a major sync that hold, at least one.
pub open spec fn is_chain(b: Seq<u8>, substreams: nat) -> bool {
    exists|units: Seq<MinorParts>|
        units.len() > 0 && #[trigger] all_hold(units, substreams) && laid_end_to_end(units) == b
}

/// Whether `pieces` are cut where the length fields of an access unit each would have them, each
/// long enough to be one.
pub open spec fn by_length(pieces: Seq<Seq<u8>>) -> bool {
    forall|i: int|
        0 <= i < pieces.len() ==> (#[trigger] pieces[i]).len() >= 8 && words(pieces[i])
            == pieces[i].len()
}

/// Whether `b` can be cut so.
pub open spec fn cut_by_length(b: Seq<u8>) -> bool {
    exists|pieces: Seq<Seq<u8>>| #[trigger] by_length(pieces) && pieces.flatten() == b
}

/// The lengths of pieces.
pub open spec fn lengths(pieces: Seq<Seq<u8>>) -> Seq<usize> {
    pieces.map_values(|s: Seq<u8>| s.len() as usize)
}

/// The pieces that units are.
pub open spec fn pieces_of(units: Seq<MinorParts>) -> Seq<Seq<u8>> {
    units.map_values(|u: MinorParts| u.bytes())
}

/// A directory that ends within `b` is made of entries.
proof fn lemma_read_directory(b: Seq<u8>, pos: int, n: nat) -> (entries: Seq<Seq<u8>>)
    requires
        0 <= pos <= b.len(),
        directory_end(b, pos, n) is Some,
    ensures
        entries.len() == n,
        forall|i: int| 0 <= i < n ==> is_entry(#[trigger] entries[i]),
        pos <= directory_end(b, pos, n)->0 <= b.len(),
        entries.flatten() == b.subrange(pos, directory_end(b, pos, n)->0),
    decreases n,
{
    if n == 0 {
        let entries = Seq::<Seq<u8>>::empty();
        assert(entries.flatten() =~= b.subrange(pos, pos));
        entries
    } else {
        let width: int = if b[pos] >= 128 { 4 } else { 2 };
        let e = b.subrange(pos, pos + width);
        let rest = lemma_read_directory(b, pos + width, (n - 1) as nat);
        let entries = seq![e] + rest;
        assert(e[0] == b[pos]);
        assert(entries.drop_first() =~= rest);
        let end = directory_end(b, pos, n)->0;
        assert(entries.flatten() =~= b.subrange(pos, end)) by {
            assert(entries.first() == e);
            assert(e + b.subrange(pos + width, end) =~= b.subrange(pos, end));
        }
        assert forall|i: int| 0 <= i < n implies is_entry(#[trigger] entries[i]) by {
            if i > 0 {
                assert(entries[i] == rest[i - 1]);
            }
        }
        entries
    }
}

/// A whole access unit that passes its checks is made of parts that hold.
proof fn lemma_read_unit(u: Seq<u8>, substreams: nat) -> (p: MinorParts)
    requires
        u.len() >= 8,
        stated_len(u) == u.len(),
        !opens_major_sync(u),
        header_parity(u, substreams, 0) == Some(true),
    ensures
        p.laid_out(),
        p.parity_holds(),
        p.directory.len() == substreams,
        p.bytes() == u,
{
    let directory = lemma_read_directory(u, 4, substreams);
    let end = directory_end(u, 4, substreams)->0;
    let p = MinorParts { header: u.subrange(0, 4), directory, rest: u.skip(end) };
    assert(p.bytes() =~= u);
    let none = Seq::<u8>::empty();
    lemma_parity(p.header, none, directory, p.rest);
    assert(p.header + none + directory.flatten() + p.rest =~= u);
    assert(p.header[0] == u[0] && p.header[1] == u[1]);
    let s = u.subrange(4, 8);
    assert(s[0] == u[4] && s[1] == u[5] && s[2] == u[6] && s[3] == u[7]);
    p
}

proof fn lemma_first_piece(pieces: Seq<Seq<u8>>)
    requires
        pieces.len() > 0,
        by_length(pieces),
    ensures
        ({
            let b = pieces.flatten();
            let n = pieces[0].len() as int;
            &&& b.len() == n + pieces.drop_first().flatten().len()
            &&& b.take(n) == pieces[0]
            &&& b.skip(n) == pieces.drop_first().flatten()
            &&& stated_len(b) == n
            &&& n >= 8
            &&& by_length(pieces.drop_first())
        }),
{
    let b = pieces.flatten();
    let first = pieces[0];
    let rest = pieces.drop_first();
    assert(by_length(pieces));
    assert(first.len() >= 8 && words(first) == first.len());
    assert(b == first + rest.flatten());
    assert(b.take(first.len() as int) =~= first);
    assert(b.skip(first.len() as int) =~= rest.flatten());
    assert(b[0] == first[0] && b[1] == first[1]);
    assert forall|i: int| 0 <= i < rest.len() implies (#[trigger] rest[i]).len() >= 8 && words(
        rest[i],
    ) == rest[i].len() by {
        assert(rest[i] == pieces[i + 1]);
    }
}

/// Pieces cut by length tile what they make up, behind anything.
proof fn lemma_pieces_tile(front: Seq<u8>, pieces: Seq<Seq<u8>>)
    requires
        by_length(pieces),
    ensures
        tiles(front + pieces.flatten(), front.len() as int),
        unit_lens(front + pieces.flatten(), front.len() as int) == lengths(pieces),
    decreases pieces.len(),
{
    let region = front + pieces.flatten();
    let p = front.len() as int;
    if pieces.len() == 0 {
        assert(unit_lens(region, p) =~= lengths(pieces));
    } else {
        lemma_first_piece(pieces);
        let n = pieces[0].len() as int;
        let rest = pieces.drop_first();
        assert(region.skip(p) =~= pieces.flatten());
        assert(front + pieces[0] + rest.flatten() =~= region) by {
            assert(pieces.flatten() == pieces[0] + rest.flatten());
        }
        lemma_pieces_tile(front + pieces[0], rest);
        assert(seq![n as usize] + lengths(rest) =~= lengths(pieces));
    }
}

/// What tiles can be cut by length.
proof fn lemma_tiles_cut(region: Seq<u8>, p: int) -> (pieces: Seq<Seq<u8>>)
    requires
        0 <= p <= region.len(),
        tiles(region, p),
    ensures
        by_length(pieces),
        pieces.flatten() == region.skip(p),
    decreases region.len() - p,
{
    if p == region.len() {
        let pieces = Seq::<Seq<u8>>::empty();
        assert(pieces.flatten() =~= region.skip(p));
        pieces
    } else {
        let len = stated_len(region.skip(p));
        let first = region.subrange(p, p + len);
        let rest = lemma_tiles_cut(region, p + len);
        let pieces = seq![first] + rest;
        assert(pieces.drop_first() =~= rest);
        assert(first + region.skip(p + len) =~= region.skip(p));
        assert(pieces.first() == first);
        assert(first[0] == region.skip(p)[0] && first[1] == region.skip(p)[1]);
        assert forall|i: int| 0 <= i < pieces.len() implies (#[trigger] pieces[i]).len() >= 8
            && words(pieces[i]) == pieces[i].len() by {
            if i > 0 {
                assert(pieces[i] == rest[i - 1]);
            }
        }
        pieces
    }
}

proof fn lemma_units_by_length(units: Seq<MinorParts>, substreams: nat)
    requires
        all_hold(units, substreams),
    ensures
        by_length(pieces_of(units)),
        laid_end_to_end(units) == pieces_of(units).flatten(),
{
    let pieces = pieces_of(units);
    assert forall|i: int| 0 <= i < pieces.len() implies (#[trigger] pieces[i]).len() >= 8 && words(
        pieces[i],
    ) == pieces[i].len() by {
        assert(pieces[i] == units[i].bytes());
        assert(units[i].laid_out());
        assert(pieces[i][0] == units[i].header[0] && pieces[i][1] == units[i].header[1]);
    }
    assert(laid_end_to_end(units) =~= pieces_of(units).flatten());
}

/// Units that hold chain, behind anything.
proof fn lemma_units_chain(front: Seq<u8>, units: Seq<MinorParts>, substreams: nat)
    requires
        units.len() > 0,
        all_hold(units, substreams),
    ensures
        chains(front + laid_end_to_end(units), front.len() as int, substreams),
    decreases units.len(),
{
    let region = front + laid_end_to_end(units);
    let p = front.len() as int;
    let u = units[0];
    let rest = units.drop_first();
    lemma_units_by_length(units, substreams);
    lemma_first_piece(pieces_of(units));
    assert(pieces_of(units).drop_first() =~= pieces_of(rest));
    assert(all_hold(units, substreams));
    assert(u.laid_out() && u.parity_holds() && u.directory.len() == substreams);
    let after = laid_end_to_end(rest);
    assert(laid_end_to_end(units) == u.bytes() + after);
    lemma_minor_bytes(u, after);
    let none = Seq::<u8>::empty();
    lemma_minor_bytes(u, none);
    assert(u.bytes() + none =~= u.bytes());
    let n = u.bytes().len() as int;
    assert(region.skip(p) =~= u.bytes() + after);
    assert(region.subrange(p, p + n) =~= u.bytes());
    assert(unit_at(region, p, substreams));
    if rest.len() == 0 {
        assert(pieces_of(rest) =~= Seq::<Seq<u8>>::empty());
        assert(after =~= Seq::<u8>::empty());
    } else {
        assert forall|i: int| 0 <= i < rest.len() implies (#[trigger] rest[i]).laid_out()
            && rest[i].parity_holds() && rest[i].directory.len() == substreams by {
            assert(rest[i] == units[i + 1]);
        }
        assert((front + u.bytes()) + after =~= region);
        lemma_units_chain(front + u.bytes(), rest, substreams);
    }
}

/// What chains is made of units that hold.
proof fn lemma_chain_units(region: Seq<u8>, p: int, substreams: nat) -> (units: Seq<MinorParts>)
    requires
        chains(region, p, substreams),
    ensures
        0 <= p < region.len(),
        units.len() > 0,
        all_hold(units, substreams),
        laid_end_to_end(units) == region.skip(p),
    decreases region.len() - p,
{
    let len = stated_len(region.skip(p));
    let bytes = region.subrange(p, p + len);
    assert(unit_at(region, p, substreams));
    assert(bytes[0] == region.skip(p)[0] && bytes[1] == region.skip(p)[1]);
    assert(bytes.subrange(4, 8) =~= region.skip(p).subrange(4, 8));
    let u = lemma_read_unit(bytes, substreams);
    let rest = if p + len == region.len() {
        Seq::<MinorParts>::empty()
    } else {
        lemma_chain_units(region, p + len, substreams)
    };
    assert(laid_end_to_end(rest) =~= region.skip(p + len)) by {
        if p + len == region.len() {
            assert(pieces_of(rest) =~= Seq::<Seq<u8>>::empty());
        }
    }
    let units = seq![u] + rest;
    assert forall|i: int| 0 <= i < units.len() implies (#[trigger] units[i]).laid_out()
        && units[i].parity_holds() && units[i].directory.len() == substreams by {
        if i > 0 {
            assert(units[i] == rest[i - 1]);
        }
    }
    assert(pieces_of(units).drop_first() =~= pieces_of(rest));
    assert(pieces_of(units).first() == bytes);
    assert(laid_end_to_end(units) == bytes + laid_end_to_end(rest));
    assert(bytes + region.skip(p + len) =~= region.skip(p));
    units
}

/// Whether a sync word follows four bytes behind position `c`.
pub open spec fn sync_word_at(b: Seq<u8>, c: int) -> bool {
    &&& c + 8 <= b.len()
    &&& b[c + 4] == 0xF8 && b[c + 5] == 0x72 && b[c + 6] == 0x6F
    &&& b[c + 7] == 0xBA || b[c + 7] == 0xBB
}

/// Whether an access unit with a sync word starts at position `c` that does not hold.
pub open spec fn bad_sync_at(b: Seq<u8>, c: int) -> bool {
    exists|p: MajorParts, more: Seq<u8>|
        #![trigger p.bytes() + more]
        p.laid_out() && !(p.crc_holds() && p.parity_holds()) && b.skip(c) == p.bytes() + more
}

/// Whether no major sync that holds, or may yet hold, starts at position `c`.
pub open spec fn no_sync_at(b: Seq<u8>, c: int) -> bool {
    !sync_word_at(b, c) || bad_sync_at(b, c)
}

proof fn lemma_no_candidate(b: Seq<u8>, c: int)
    requires
        0 <= c <= b.len(),
        no_sync_at(b, c),
    ensures
        !sync_candidate(b, c),
{
    if bad_sync_at(b, c) {
        let (p, more) = choose|p: MajorParts, more: Seq<u8>|
            #![trigger p.bytes() + more]
            p.laid_out() && !(p.crc_holds() && p.parity_holds()) && b.skip(c) == p.bytes() + more;
        law_major_sync(p, more);
    }
    let t = b.skip(c);
    if c + 8 <= b.len() {
        let s = t.subrange(4, 8);
        assert(s[0] == b[c + 4] && s[1] == b[c + 5] && s[2] == b[c + 6] && s[3] == b[c + 7]);
    }
}

/// Bytes in front of a major sync: whatever came first, then access units without one.
pub struct Found {
    pub front: Seq<u8>,
    pub units: Seq<MinorParts>,
    pub sync: MajorParts,
    pub more: Seq<u8>,
}

impl Found {
    /// The bytes in front of the major sync.
    pub open spec fn region(self) -> Seq<u8> {
        self.front + laid_end_to_end(self.units)
    }

    pub open spec fn bytes(self) -> Seq<u8> {
        self.region() + (self.sync.bytes() + self.more)
    }

    /// Whether the framer is looking for a major sync and has this one before it, with none that
    /// holds earlier on: the major sync and the access units hold, and there are no more of them,
    /// that is no earlier byte from which nothing but access units that hold leads to the major
    /// sync.
    pub open spec fn lies_before(self, v: FramerView, after_damage: bool) -> bool {
        let substreams = self.sync.directory.len();
        &&& v.valid()
        &&& v.lock matches Lock::Seeking { scan, after_damage: damage } && damage == after_damage
            && scan <= self.region().len() && forall|c: int|
            scan <= c < self.region().len() ==> #[trigger] no_sync_at(v.pending, c)
        &&& v.pending == self.bytes()
        &&& self.sync.laid_out()
        &&& self.sync.crc_holds()
        &&& self.sync.parity_holds()
        &&& all_hold(self.units, substreams)
        &&& forall|q: int|
            0 <= q < self.front.len() ==> !is_chain(#[trigger] self.region().skip(q), substreams)
    }
}

proof fn lemma_found(v: FramerView, found: Found, after_damage: bool)
    requires
        found.lies_before(v, after_damage),
    ensures
        ({
            let scan = v.lock->scan;
            let c = found.region().len() as int;
            let n = found.sync.directory.len();
            &&& find_sync(v.pending, scan) == Some(c)
            &&& major_sync(v.pending.skip(c)) == Some(Some(n as usize))
            &&& n <= 15
            &&& v.pending.take(c) == found.region()
            &&& first_chain(found.region(), 0, n) == found.front.len()
            &&& unit_lens(found.region(), found.front.len() as int) == lengths(
                pieces_of(found.units),
            )
            &&& found.region().take(found.front.len() as int) == found.front
        }),
{
    let scan = v.lock->scan;
    let region = found.region();
    let c = region.len() as int;
    let n = found.sync.directory.len();
    let b = v.pending;
    assert(b.skip(c) =~= found.sync.bytes() + found.more);
    assert(b.take(c) =~= region);
    law_major_sync(found.sync, found.more);
    lemma_major_bytes(found.sync, found.more);
    assert(sync_candidate(b, c));
    assert forall|q: int| scan <= q < c implies !#[trigger] sync_candidate(b, q) by {
        assert(no_sync_at(b, q));
        lemma_no_candidate(b, q);
    }
    lemma_find_sync_is(b, scan, c);
    lemma_first_chain(region, 0, n);
    let first = first_chain(region, 0, n);
    let f = found.front.len() as int;
    if first < f {
        let units = lemma_chain_units(region, first, n);
        assert(all_hold(units, n));
        assert(is_chain(region.skip(first), n));
    }
    if found.units.len() > 0 {
        lemma_units_chain(found.front, found.units, n);
    } else {
        assert(pieces_of(found.units) =~= Seq::<Seq<u8>>::empty());
        assert(laid_end_to_end(found.units) =~= Seq::<u8>::empty());
    }
    assert(first == f);
    lemma_units_by_length(found.units, n);
    lemma_pieces_tile(found.front, pieces_of(found.units));
    assert(region.take(f) =~= found.front);
}

/// The framer locks in `x`, and goes on from there.
proof fn lemma_goes_on(v: FramerView, found: Found, after_damage: bool)
    requires
        found.lies_before(v, after_damage),
    ensures
        ({
            let n = found.sync.directory.len() as usize;
            let c = found.region().len() as int;
            let x = FramerView { substreams: n, ..v }.chain_back(c, after_damage);
            v.next() == x.next()
        }),
{
    reveal(FramerView::next);
    lemma_found(v, found, after_damage);
    let n = found.sync.directory.len() as usize;
    let c = found.region().len() as int;
    let scan = v.lock->scan;
    let x = FramerView { substreams: n, ..v }.chain_back(c, after_damage);
    assert(v.seek(scan, after_damage) == (x, true));
    if x.queued.len() == 0 {
        let b = v.pending.skip(c);
        assert(b =~= found.sync.bytes() + found.more);
        law_major_sync(found.sync, found.more);
        lemma_major_bytes(found.sync, found.more);
        if found.units.len() > 0 {
            assert(lengths(pieces_of(found.units)).len() > 0);
        }
        assert(found.units.len() == 0);
        assert(pieces_of(found.units) =~= Seq::<Seq<u8>>::empty());
        assert(laid_end_to_end(found.units) =~= Seq::<u8>::empty());
        assert(c == found.front.len());
        if c == 0 {
            assert(v.pending.skip(0) =~= v.pending);
        } else if tiles(found.front, 0) {
            lemma_tiles_lens(found.front, 0);
        }
        assert(x.pending == b);
    }
}

/// Where access units that hold lead from the first byte kept exactly onto the major sync found,
/// the framer goes on with all of them queued, each to be reported under its own ordinal; nothing
/// is skipped or estimated.
pub proof fn law_all_recovered(v: FramerView, found: Found, after_damage: bool)
    requires
        found.lies_before(v, after_damage),
        found.front.len() == 0,
    ensures
        v.next() == (FramerView {
            lock: Lock::Locked,
            substreams: found.sync.directory.len() as usize,
            queued: lengths(pieces_of(found.units)),
            ..v
        }).next(),
{
    lemma_found(v, found, after_damage);
    lemma_goes_on(v, found, after_damage);
}

/// Where the bytes in front of those access units can be cut by their length fields alone, they
/// are access units that failed their checks: each of them is queued too, and the count is flagged.
/// It is a sync error, unless damage was met already.
pub proof fn law_failed_recovered(
    v: FramerView,
    found: Found,
    after_damage: bool,
    pieces: Seq<Seq<u8>>,
)
    requires
        found.lies_before(v, after_damage),
        found.front.len() > 0,
        by_length(pieces),
        pieces.flatten() == found.front,
    ensures
        v.next() == (FramerView {
            lock: Lock::Locked,
            substreams: found.sync.directory.len() as usize,
            queued: lengths(pieces) + lengths(pieces_of(found.units)),
            estimated: true,
            sync_errors: v.sync_errors + (if after_damage {
                0int
            } else {
                1
            }),
            ..v
        }).next(),
{
    lemma_found(v, found, after_damage);
    lemma_goes_on(v, found, after_damage);
    let none = Seq::<u8>::empty();
    lemma_pieces_tile(none, pieces);
    assert(none + pieces.flatten() =~= found.front);
}

/// Where they cannot, and no damage was met, and they are no more than the longest access unit,
/// they are the end of one that began before the first byte pushed: skipped, and not counted.
pub proof fn law_fragment_skipped(v: FramerView, found: Found)
    requires
        found.lies_before(v, false),
        0 < found.front.len() <= 8190,
        !cut_by_length(found.front),
    ensures
        v.next() == (FramerView {
            lock: Lock::Locked,
            substreams: found.sync.directory.len() as usize,
            queued: lengths(pieces_of(found.units)),
            pending: v.pending.skip(found.front.len() as int),
            consumed: v.consumed + found.front.len(),
            skipped_bytes: v.skipped_bytes + found.front.len(),
            ..v
        }).next(),
{
    lemma_found(v, found, false);
    lemma_goes_on(v, found, false);
    lemma_not_cut(found.front);
}

/// After damage, or where there are more of them, they are skipped, and counted as the access units
/// that they are estimated to have held, at least one; the count is flagged.
pub proof fn law_gap_estimated(v: FramerView, found: Found, after_damage: bool)
    requires
        found.lies_before(v, after_damage),
        found.front.len() > 0,
        after_damage || found.front.len() > 8190,
        !cut_by_length(found.front),
    ensures
        ({
            let n = estimated_aus(
                found.front.len(),
                v.framed_aus as nat,
                v.framed_bytes as nat,
            );
            v.next() == (FramerView {
                lock: Lock::Locked,
                substreams: found.sync.directory.len() as usize,
                queued: lengths(pieces_of(found.units)),
                pending: v.pending.skip(found.front.len() as int),
                consumed: v.consumed + found.front.len(),
                skipped_bytes: v.skipped_bytes + found.front.len(),
                ordinal: v.ordinal + (if n > 1 {
                    n as int
                } else {
                    1
                }),
                estimated: true,
                ..v
            }).next()
        }),
{
    lemma_found(v, found, after_damage);
    lemma_goes_on(v, found, after_damage);
    lemma_not_cut(found.front);
}

proof fn lemma_not_cut(front: Seq<u8>)
    requires
        !cut_by_length(front),
    ensures
        !tiles(front, 0),
{
    if tiles(front, 0) {
        let pieces = lemma_tiles_cut(front, 0);
        assert(front.skip(0) =~= front);
        assert(by_length(pieces));
    }
}

/// What is queued is reported piece by piece, each at its offset and under the next ordinal, before
/// anything else.
pub proof fn law_queue_reported(v: FramerView)
    requires
        v.valid(),
        v.queued.len() > 0,
    ensures
        v.next().1 == NextView::Skipped(
            AuInfo {
                offset: v.consumed as u64,
                ordinal: v.ordinal as u64,
                major_sync: false,
            },
        ),
        v.next().0 == (FramerView {
            queued: v.queued.skip(1),
            pending: v.pending.skip(v.queued[0] as int),
            consumed: v.consumed + v.queued[0],
            ordinal: v.ordinal + 1,
            framed_aus: v.framed_aus + 1,
            framed_bytes: v.framed_bytes + v.queued[0],
            ..v
        }),
{
    reveal(FramerView::next);
}

/// Damage in a chain starts a search one byte behind its start, as a sync error.
pub proof fn law_damage_searched(v: FramerView, p: MinorParts, more: Seq<u8>)
    requires
        v.valid(),
        v.lock is Locked,
        v.queued.len() == 0,
        p.laid_out(),
        !p.parity_holds(),
        p.directory.len() == v.substreams,
        v.pending == p.bytes() + more,
    ensures
        v.next() == (FramerView {
            lock: Lock::Seeking { scan: 1, after_damage: true },
            sync_errors: v.sync_errors + 1,
            ..v
        }).next(),
{
    reveal(FramerView::next);
    lemma_minor_bytes(p, more);
}

/// Whether `b` holds a header and a directory of `entries` entries.
pub open spec fn holds_directory(b: Seq<u8>, entries: nat) -> bool {
    exists|header: Seq<u8>, directory: Seq<Seq<u8>>, rest: Seq<u8>|
        #![trigger header + directory.flatten() + rest]
        header.len() == 4 && directory.len() == entries && (forall|i: int|
            0 <= i < entries ==> is_entry(#[trigger] directory[i])) && b == header
            + directory.flatten() + rest
}

/// So does a whole access unit whose directory runs past every byte there is.
pub proof fn law_overrun_searched(v: FramerView)
    requires
        v.valid(),
        v.lock is Locked,
        v.queued.len() == 0,
        v.pending.len() >= 8,
        8 <= words(v.pending) <= v.pending.len(),
        !sync_word_at(v.pending, 0),
        !holds_directory(v.pending, v.substreams as nat),
    ensures
        v.next() == (FramerView {
            lock: Lock::Seeking { scan: 1, after_damage: true },
            sync_errors: v.sync_errors + 1,
            ..v
        }).next(),
{
    reveal(FramerView::next);
    let b = v.pending;
    let s = b.subrange(4, 8);
    assert(s[0] == b[4] && s[1] == b[5] && s[2] == b[6] && s[3] == b[7]);
    let n = v.substreams as nat;
    if header_parity(b, n, 0) is Some {
        let directory = lemma_read_directory(b, 4, n);
        let end = directory_end(b, 4, n)->0;
        let header = b.subrange(0, 4);
        let rest = b.skip(end);
        assert(b =~= header + directory.flatten() + rest);
        assert(holds_directory(b, n));
    }
}

/// The parity of an access unit covers its directory also where that runs past its stated end: it
/// is handed out, cut there, if the parity holds, and else damage.
pub proof fn law_overrun_checked(
    v: FramerView,
    header: Seq<u8>,
    directory: Seq<Seq<u8>>,
    rest: Seq<u8>,
)
    requires
        v.valid(),
        v.lock is Locked,
        v.queued.len() == 0,
        header.len() == 4,
        directory.len() == v.substreams,
        forall|i: int| 0 <= i < directory.len() ==> is_entry(#[trigger] directory[i]),
        v.pending == header + directory.flatten() + rest,
        8 <= words(header) <= v.pending.len(),
        !sync_word_at(v.pending, 0),
    ensures
        nibbles(header + directory.flatten()) == 0xF ==> v.next().1 == NextView::Au(
            AuInfo {
                offset: v.consumed as u64,
                ordinal: v.ordinal as u64,
                major_sync: false,
            },
            v.pending.take(words(header)),
        ),
        nibbles(header + directory.flatten()) != 0xF ==> v.next() == (FramerView {
            lock: Lock::Seeking { scan: 1, after_damage: true },
            sync_errors: v.sync_errors + 1,
            ..v
        }).next(),
{
    reveal(FramerView::next);
    let b = v.pending;
    let s = b.subrange(4, 8);
    assert(s[0] == b[4] && s[1] == b[5] && s[2] == b[6] && s[3] == b[7]);
    let none = Seq::<u8>::empty();
    lemma_parity(header, none, directory, rest);
    assert(header + none + directory.flatten() + rest =~= b);
    assert(b[0] == header[0] && b[1] == header[1]);
}

/// So does a length field too small for an access unit.
pub proof fn law_short_length_searched(v: FramerView)
    requires
        v.valid(),
        v.lock is Locked,
        v.queued.len() == 0,
        v.pending.len() >= 8,
        words(v.pending) < 8,
    ensures
        v.next() == (FramerView {
            lock: Lock::Seeking { scan: 1, after_damage: true },
            sync_errors: v.sync_errors + 1,
            ..v
        }).next(),
{
    reveal(FramerView::next);
}

/// And a major sync that does not hold.
pub proof fn law_bad_sync_searched(v: FramerView, p: MajorParts, more: Seq<u8>)
    requires
        v.valid(),
        v.lock is Locked,
        v.queued.len() == 0,
        p.laid_out(),
        !(p.crc_holds() && p.parity_holds()),
        v.pending == p.bytes() + more,
    ensures
        v.next() == (FramerView {
            lock: Lock::Seeking { scan: 1, after_damage: true },
            sync_errors: v.sync_errors + 1,
            ..v
        }).next(),
{
    reveal(FramerView::next);
    law_major_sync(p, more);
    lemma_major_bytes(p, more);
}

/// An access unit of a chain that holds is waited for while any of its bytes is missing.
pub proof fn law_unit_waited_for(v: FramerView, p: MinorParts, n: int)
    requires
        v.valid(),
        v.lock is Locked,
        v.queued.len() == 0,
        p.laid_out(),
        p.parity_holds(),
        p.directory.len() == v.substreams,
        0 <= n < p.bytes().len(),
        v.pending == p.bytes().take(n),
    ensures
        v.next() == (v, NextView::NeedData),
{
    reveal(FramerView::next);
    let u = p.bytes();
    let b = v.pending;
    if n >= 8 {
        let rest = u.skip(n);
        let none = Seq::<u8>::empty();
        assert(b + rest =~= u);
        lemma_minor_bytes(p, none);
        assert(u + none =~= u);
        assert(b[0] == u[0] && b[1] == u[1]);
        assert(b.subrange(4, 8) =~= u.subrange(4, 8));
        if header_parity(b, v.substreams as nat, 0) is Some {
            lemma_parity_grows(b, rest, v.substreams as nat, 0);
        }
    }
}

/// A major sync access unit of a chain is waited for while any of its bytes is missing.
pub proof fn law_sync_waited_for(v: FramerView, p: MajorParts, n: int)
    requires
        v.valid(),
        v.lock is Locked,
        v.queued.len() == 0,
        p.laid_out(),
        0 <= n < p.bytes().len(),
        v.pending == p.bytes().take(n),
    ensures
        v.next() == (v, NextView::NeedData),
{
    reveal(FramerView::next);
    law_major_sync_waits(p, n);
    let u = p.bytes();
    let b = v.pending;
    if n >= 8 {
        let none = Seq::<u8>::empty();
        lemma_major_bytes(p, none);
        assert(u + none =~= u);
        assert(b[0] == u[0] && b[1] == u[1]);
        assert(b.subrange(4, 8) =~= u.subrange(4, 8));
    }
}

/// While no major sync has come, all bytes are kept, up to 4 MiB of them. Once there are more, all
/// but the last seven, in which one may have begun, are let go, and the access units in them
/// estimated.
pub proof fn law_retained(v: FramerView, scan: int, after_damage: bool)
    requires
        v.valid(),
        v.lock == (Lock::Seeking { scan, after_damage }),
        forall|c: int| scan <= c < v.pending.len() ==> #[trigger] no_sync_at(v.pending, c),
    ensures
        ({
            let (w, r) = v.next();
            let seen: int = if v.pending.len() - 7 > scan {
                v.pending.len() - 7
            } else {
                scan
            };
            &&& r is NeedData
            &&& seen <= 4 * 1024 * 1024 ==> w == (FramerView {
                lock: Lock::Seeking { scan: seen, after_damage },
                ..v
            })
            &&& seen > 4 * 1024 * 1024 ==> w == (FramerView {
                lock: Lock::Seeking { scan: 0, after_damage },
                pending: v.pending.skip(seen),
                consumed: v.consumed + seen,
                skipped_bytes: v.skipped_bytes + seen,
                ordinal: v.ordinal + estimated_aus(
                    seen as nat,
                    v.framed_aus as nat,
                    v.framed_bytes as nat,
                ),
                estimated: true,
                ..v
            })
        }),
{
    reveal(FramerView::next);
    lemma_find_sync(v.pending, scan);
    if let Some(c) = find_sync(v.pending, scan) {
        assert(no_sync_at(v.pending, c));
        lemma_no_candidate(v.pending, c);
    }
}

/// While a sync word has come but not yet all of the access unit that it opens, all bytes are kept.
pub proof fn law_sync_kept(v: FramerView, found: Found, n: int, after_damage: bool)
    requires
        v.valid(),
        v.lock matches Lock::Seeking { scan, after_damage: damage } && damage == after_damage
            && scan <= found.front.len() && forall|c: int|
            scan <= c < found.front.len() ==> #[trigger] no_sync_at(v.pending, c),
        found.sync.laid_out(),
        8 <= n < found.sync.bytes().len(),
        v.pending == found.front + found.sync.bytes().take(n),
    ensures
        v.next() == (
            FramerView {
                lock: Lock::Seeking { scan: found.front.len() as int, after_damage },
                ..v
            },
            NextView::NeedData,
        ),
{
    reveal(FramerView::next);
    let scan = v.lock->scan;
    let c = found.front.len() as int;
    let b = v.pending;
    let u = found.sync.bytes();
    let none = Seq::<u8>::empty();
    law_major_sync_waits(found.sync, n);
    lemma_major_bytes(found.sync, none);
    assert(u + none =~= u);
    assert(b.skip(c) =~= u.take(n));
    assert(u.take(n).subrange(4, 8) =~= u.subrange(4, 8));
    assert(sync_candidate(b, c));
    assert forall|q: int| scan <= q < c implies !#[trigger] sync_candidate(b, q) by {
        assert(no_sync_at(b, q));
        lemma_no_candidate(b, q);
    }
    lemma_find_sync_is(b, scan, c);
}

} // verus!
