//! What the framer makes of access units put together part by part, as the format lays them out:
//! header, major sync info with its CRC, substream directory, and the rest.

use crate::chain::{first_chain, lemma_first_chain, tiles, unit_lens};
use crate::clean_laws::{declared, whole_major, whole_minor};
use crate::framer::{
    check, find_sync, lemma_find_sync, sync_candidate, AuInfo, Check, FramerView, Lock, Next,
    NextView,
};
use crate::header::{
    directory_end, header_parity, major_sync, opens_major_sync, stated_len, sync_info_crc,
    sync_info_len, xor_all,
};
use crate::stream::signature;
use vstd::prelude::*;

verus! {

/// The exclusive or of all nibbles.
pub open spec fn nibbles(s: Seq<u8>) -> u8 {
    s.fold_left(0u8, |x: u8, b: u8| x ^ (b >> 4) ^ (b & 0xF))
}

/// Whether `e` is an entry of a substream directory: four bytes if its top bit is set, else two.
pub open spec fn is_entry(e: Seq<u8>) -> bool {
    (e.len() == 2 && e[0] < 0x80) || (e.len() == 4 && e[0] >= 0x80)
}

/// The length an access-unit header states: its low twelve bits, in words of two bytes.
pub open spec fn words(header: Seq<u8>) -> int {
    2 * (256 * (header[0] % 16) + header[1])
}

/// The parts of an access unit with a major sync.
pub struct MajorParts {
    pub header: Seq<u8>,
    pub info: Seq<u8>,
    pub crc: Seq<u8>,
    pub directory: Seq<Seq<u8>>,
    pub rest: Seq<u8>,
}

impl MajorParts {
    pub open spec fn bytes(self) -> Seq<u8> {
        self.header + self.info + self.crc + self.directory.flatten() + self.rest
    }

    /// Whether the parts are put together as the format asks for: a header that states the length
    /// of the whole, an info block that opens with a sync word and is 26 bytes long or, if it is
    /// one of TrueHD and announces extra channel meaning, as long as that says, and a directory of
    /// as many entries as the block declares substreams. At least one word follows the CRC.
    pub open spec fn laid_out(self) -> bool {
        let info = self.info;
        &&& self.header.len() == 4
        &&& self.crc.len() == 2
        &&& info.len() >= 26
        &&& info[0] == 0xF8 && info[1] == 0x72 && info[2] == 0x6F
        &&& info[3] == 0xBA || info[3] == 0xBB
        &&& info[3] == 0xBB || info[25] % 2 == 0 ==> info.len() == 26
        &&& info[3] == 0xBA && info[25] % 2 == 1 ==> info.len() >= 28 && info.len() == 28 + 2 * (
        info[26] / 16)
        &&& self.directory.len() == info[16] / 16
        &&& forall|i: int| 0 <= i < self.directory.len() ==> is_entry(#[trigger] self.directory[i])
        &&& self.bytes().len() == words(self.header)
        &&& self.directory.flatten().len() + self.rest.len() >= 1
    }

    /// Whether the CRC is that of the info block.
    pub open spec fn crc_holds(self) -> bool {
        256 * self.crc[0] + self.crc[1] == sync_info_crc(self.info)
    }

    /// Whether all nibbles of the header and the directory have odd parity in each bit.
    pub open spec fn parity_holds(self) -> bool {
        nibbles(self.header + self.directory.flatten()) == 0xF
    }
}

/// The parts of an access unit without a major sync.
pub struct MinorParts {
    pub header: Seq<u8>,
    pub directory: Seq<Seq<u8>>,
    pub rest: Seq<u8>,
}

impl MinorParts {
    pub open spec fn bytes(self) -> Seq<u8> {
        self.header + self.directory.flatten() + self.rest
    }

    /// Whether the parts are put together as the format asks for, and no sync word follows the
    /// header.
    pub open spec fn laid_out(self) -> bool {
        let b = self.bytes();
        &&& self.header.len() == 4
        &&& forall|i: int| 0 <= i < self.directory.len() ==> is_entry(#[trigger] self.directory[i])
        &&& b.len() == words(self.header)
        &&& b.len() >= 8
        &&& !(b[4] == 0xF8 && b[5] == 0x72 && b[6] == 0x6F && (b[7] == 0xBA || b[7] == 0xBB))
    }

    pub open spec fn parity_holds(self) -> bool {
        nibbles(self.header + self.directory.flatten()) == 0xF
    }
}

proof fn lemma_nibbles(s: Seq<u8>)
    ensures
        nibbles(s) == ((xor_all(s) >> 4) ^ xor_all(s)) & 0xF,
    decreases s.len(),
{
    if s.len() == 0 {
        assert(((0u8 >> 4) ^ 0u8) & 0xF == 0u8) by (bit_vector);
    } else {
        lemma_nibbles(s.drop_last());
        let p = xor_all(s.drop_last());
        let b = s.last();
        assert((((p >> 4) ^ p) & 0xF) ^ (b >> 4) ^ (b & 0xF) == (((p ^ b) >> 4) ^ (p ^ b)) & 0xF)
            by (bit_vector);
    }
}

proof fn lemma_entries(b: Seq<u8>, pos: int, entries: Seq<Seq<u8>>)
    requires
        0 <= pos,
        pos + entries.flatten().len() <= b.len(),
        b.subrange(pos, pos + entries.flatten().len()) == entries.flatten(),
        forall|i: int| 0 <= i < entries.len() ==> is_entry(#[trigger] entries[i]),
    ensures
        directory_end(b, pos, entries.len()) == Some(pos + entries.flatten().len()),
    decreases entries.len(),
{
    if entries.len() > 0 {
        let e = entries[0];
        let rest = entries.drop_first();
        let flat = entries.flatten();
        assert(is_entry(e));
        assert(flat =~= e + rest.flatten());
        assert(b[pos] == b.subrange(pos, pos + flat.len())[0]);
        assert(b[pos] == e[0]);
        assert(b.subrange(pos + e.len(), pos + flat.len()) =~= rest.flatten()) by {
            assert forall|i: int| 0 <= i < rest.flatten().len() implies b[pos + e.len() + i]
                == rest.flatten()[i] by {
                assert(b.subrange(pos, pos + flat.len())[e.len() + i] == flat[e.len() + i]);
            }
        }
        assert forall|i: int| 0 <= i < rest.len() implies is_entry(#[trigger] rest[i]) by {
            assert(is_entry(entries[i + 1]));
        }
        lemma_entries(b, pos + e.len(), rest);
    }
}

/// Header parity from the layout: `gap` bytes stand between header and directory.
pub proof fn lemma_parity(header: Seq<u8>, gap: Seq<u8>, directory: Seq<Seq<u8>>, rest: Seq<u8>)
    requires
        header.len() == 4,
        forall|i: int| 0 <= i < directory.len() ==> is_entry(#[trigger] directory[i]),
    ensures
        header_parity(
            header + gap + directory.flatten() + rest,
            directory.len(),
            gap.len() as int,
        ) == Some(nibbles(header + directory.flatten()) == 0xF),
{
    let flat = directory.flatten();
    let b = header + gap + flat + rest;
    let pos: int = 4 + gap.len() as int;
    assert(b.subrange(pos, pos + flat.len()) =~= flat);
    lemma_entries(b, pos, directory);
    assert(b.subrange(0, 4) =~= header);
    lemma_nibbles(header + flat);
    if directory.len() == 0 {
        assert(flat =~= Seq::<u8>::empty());
    }
}

pub proof fn lemma_major_bytes(p: MajorParts, more: Seq<u8>)
    requires
        p.laid_out(),
    ensures
        ({
            let b = p.bytes() + more;
            let n = p.info.len() as int;
            &&& b.len() >= p.bytes().len() > n + 6
            &&& sync_info_len(b) == Some(n)
            &&& stated_len(b) == p.bytes().len()
            &&& opens_major_sync(b)
            &&& b[20] == p.info[16]
            &&& b.subrange(4, 4 + n) == p.info
            &&& b[4 + n] == p.crc[0]
            &&& b[5 + n] == p.crc[1]
            &&& b.subrange(0, p.bytes().len() as int) == p.bytes()
        }),
{
    let b = p.bytes() + more;
    let n = p.info.len() as int;
    let s = b.subrange(4, 8);
    assert(s[0] == p.info[0] && s[1] == p.info[1] && s[2] == p.info[2] && s[3] == p.info[3]);
    assert(b[7] == p.info[3]);
    assert(b[29] == p.info[25]);
    if n > 26 {
        assert(b[30] == p.info[26]);
    }
    assert(b[0] == p.header[0] && b[1] == p.header[1]);
    assert(b.subrange(4, 4 + n) =~= p.info);
    assert(b.subrange(0, p.bytes().len() as int) =~= p.bytes());
}

/// A major sync access unit is valid, with the substream count that its info block declares,
/// exactly if the CRC behind the block is the block's, and the nibbles of the header and of the
/// directory behind that CRC, and of nothing else, come out odd in each bit. Whatever follows the
/// access unit, and however long its info block is.
pub proof fn law_major_sync(p: MajorParts, more: Seq<u8>)
    requires
        p.laid_out(),
    ensures
        major_sync(p.bytes() + more) == (if p.crc_holds() && p.parity_holds() {
            Some(Some((p.info[16] / 16) as usize))
        } else {
            Some(None)
        }),
        opens_major_sync(p.bytes() + more),
        p.directory.len() == (p.info[16] / 16) as usize,
{
    lemma_major_bytes(p, more);
    let flat = p.directory.flatten();
    let gap = p.info + p.crc;
    lemma_parity(p.header, gap, p.directory, p.rest);
    assert(p.header + gap + flat + p.rest =~= p.bytes());
}

/// While any of its bytes is missing there is no verdict on a major sync access unit.
pub proof fn law_major_sync_waits(p: MajorParts, n: int)
    requires
        p.laid_out(),
        0 <= n < p.bytes().len(),
    ensures
        major_sync(p.bytes().take(n)) is None,
{
    let b = p.bytes();
    let t = b.take(n);
    let none = Seq::<u8>::empty();
    lemma_major_bytes(p, none);
    assert(b + none =~= b);
    if n > 7 {
        assert(t[7] == b[7] && t[0] == b[0] && t[1] == b[1]);
        if n > 29 {
            assert(t[29] == b[29]);
        }
        if n > 30 {
            assert(t[30] == b[30]);
        }
    }
}

/// A sync word in an access unit too short for the info block, its CRC and one word more is no
/// major sync.
pub proof fn law_short_major_sync(header: Seq<u8>, info: Seq<u8>, more: Seq<u8>)
    requires
        header.len() == 4,
        info.len() == 26,
        info[3] == 0xBB || info[25] % 2 == 0,
        words(header) <= 32,
    ensures
        major_sync(header + info + more) == Some(None::<usize>),
{
    let b = header + info + more;
    assert(b[7] == info[3] && b[29] == info[25] && b[0] == header[0] && b[1] == header[1]);
}

/// The signature of a major sync access unit is made of the parts of its info block that define
/// the configuration: sync word and format, flags, substream count and presentation info, and the
/// extra channel meaning.
pub proof fn law_signature(p: MajorParts, more: Seq<u8>)
    requires
        p.laid_out(),
    ensures
        signature(p.bytes() + more) == Some(
            p.info.subrange(0, 8) + p.info.subrange(10, 12) + p.info.subrange(16, 18)
                + p.info.skip(26),
        ),
{
    lemma_major_bytes(p, more);
    let b = p.bytes() + more;
    let n = p.info.len() as int;
    assert forall|i: int| 0 <= i < n implies b[4 + i] == #[trigger] p.info[i] by {
        assert(b.subrange(4, 4 + n)[i] == p.info[i]);
    }
    assert(signature(b)->0 =~= p.info.subrange(0, 8) + p.info.subrange(10, 12) + p.info.subrange(
        16,
        18,
    ) + p.info.skip(26));
}

/// There is none while the info block is incomplete.
pub proof fn law_no_signature(p: MajorParts, n: int)
    requires
        p.laid_out(),
        0 <= n < 4 + p.info.len(),
    ensures
        signature(p.bytes().take(n)) is None,
{
    let b = p.bytes();
    let t = b.take(n);
    let none = Seq::<u8>::empty();
    lemma_major_bytes(p, none);
    assert(b + none =~= b);
    if n > 7 {
        assert(t[7] == b[7]);
        if n > 29 {
            assert(t[29] == b[29]);
        }
        if n > 30 {
            assert(t[30] == b[30]);
        }
    }
}

pub proof fn lemma_minor_bytes(p: MinorParts, more: Seq<u8>)
    requires
        p.laid_out(),
    ensures
        ({
            let b = p.bytes() + more;
            &&& stated_len(b) == p.bytes().len()
            &&& !opens_major_sync(b)
            &&& header_parity(b, p.directory.len(), 0) == Some(p.parity_holds())
            &&& b.take(p.bytes().len() as int) == p.bytes()
        }),
{
    let b = p.bytes() + more;
    let none = Seq::<u8>::empty();
    lemma_parity(p.header, none, p.directory, p.rest + more);
    assert(p.header + none + p.directory.flatten() + (p.rest + more) =~= b);
    assert(b.take(p.bytes().len() as int) =~= p.bytes());
    assert(b[0] == p.header[0] && b[1] == p.header[1]);
    let s = b.subrange(4, 8);
    let u = p.bytes();
    assert(s[0] == u[4] && s[1] == u[5] && s[2] == u[6] && s[3] == u[7]);
}

/// Parts that hold make a whole access unit with a major sync, which declares as many substreams
/// as its directory has entries; parts that do not hold make none.
pub proof fn law_whole_major(p: MajorParts)
    requires
        p.laid_out(),
    ensures
        whole_major(p.bytes()) == (p.crc_holds() && p.parity_holds()),
        whole_major(p.bytes()) ==> declared(p.bytes()) == p.directory.len(),
{
    let none = Seq::<u8>::empty();
    law_major_sync(p, none);
    lemma_major_bytes(p, none);
    assert(p.bytes() + none =~= p.bytes());
}

/// Parts that hold make a whole access unit without a major sync, in a stream with as many
/// substreams as its directory has entries; parts that do not hold make none.
pub proof fn law_whole_minor(p: MinorParts, substreams: usize)
    requires
        p.laid_out(),
        p.directory.len() == substreams,
    ensures
        whole_minor(p.bytes(), substreams) == p.parity_holds(),
{
    let none = Seq::<u8>::empty();
    lemma_minor_bytes(p, none);
    assert(p.bytes() + none =~= p.bytes());
}

/// Whether the framer is about to look at the first pending byte: in a chain, or at the start of
/// a search.
pub open spec fn at_front(v: FramerView) -> bool {
    &&& v.queued.len() == 0
    &&& v.lock is Locked || (v.lock matches Lock::Seeking { scan, .. } && scan == 0)
}

/// Where the search starts behind the first byte, nothing that starts at that byte comes out of it
/// for decoding.
proof fn lemma_sought_later(v: FramerView, scan: int, after_damage: bool)
    requires
        v.valid(),
        0 <= scan <= v.pending.len(),
        scan > 0 || !sync_candidate(v.pending, 0),
    ensures
        v.next_sought(scan, after_damage).1 matches NextView::Au(info, _) ==> info.offset
            > v.consumed,
{
    lemma_find_sync(v.pending, scan);
    if let Some(c) = find_sync(v.pending, scan) {
        if let Some(Some(substreams)) = major_sync(v.pending.skip(c)) {
            assert(c > 0);
            let region = v.pending.take(c);
            lemma_first_chain(region, 0, substreams as nat);
            let first = first_chain(region, 0, substreams as nat);
            let front = region.take(first);
            if first == 0 {
                assert(unit_lens(region, 0).len() > 0);
            } else if tiles(front, 0) {
                assert(front.skip(0) =~= front);
                assert(unit_lens(front, 0).len() > 0);
            }
        }
    }
}

/// A major sync access unit at the front is handed out whole if its parts hold, whatever follows
/// it, and the access units behind it are checked against the substreams it declares. If they do
/// not hold it is not handed out, and in a chain it is a sync error.
pub proof fn law_major_unit(v: FramerView, p: MajorParts, more: Seq<u8>)
    requires
        v.valid(),
        at_front(v),
        p.laid_out(),
        v.pending == p.bytes() + more,
    ensures
        ({
            let (w, r) = v.next();
            if p.crc_holds() && p.parity_holds() {
                &&& r == NextView::Au(
                    AuInfo {
                        offset: v.consumed as u64,
                        ordinal: v.ordinal as u64,
                        major_sync: true,
                    },
                    p.bytes(),
                )
                &&& w.pending == more
                &&& w.substreams == p.directory.len()
                &&& w.ordinal == v.ordinal + 1
                &&& w.lock is Locked
                &&& w.queued.len() == 0
                &&& w.sync_errors == v.sync_errors
                &&& w.estimated == v.estimated
                &&& w.skipped_bytes == v.skipped_bytes
            } else {
                &&& r matches NextView::Au(info, _) ==> info.offset > v.consumed
                &&& v.lock is Locked ==> w.sync_errors == v.sync_errors + 1
            }
        }),
{
    reveal(FramerView::next);
    law_major_sync(p, more);
    lemma_major_bytes(p, more);
    let b = v.pending;
    assert(b.skip(0) =~= b);
    assert(b.take(p.bytes().len() as int) =~= p.bytes());
    assert(b.skip(p.bytes().len() as int) =~= more);
    match v.lock {
        Lock::Locked => {
            if !(p.crc_holds() && p.parity_holds()) {
                let u = FramerView { sync_errors: v.sync_errors + 1, ..v };
                let s = FramerView { lock: Lock::Seeking { scan: 1, after_damage: true }, ..u };
                assert(check(b, v.substreams as nat) == Check::Invalid);
                lemma_sought_later(s, 1, true);
                assert(s.next_sought(1, true) == u.next_sought(1, true));
            }
        },
        Lock::Seeking { scan, after_damage } => {
            if p.crc_holds() && p.parity_holds() {
                assert(sync_candidate(b, 0));
                let region = b.take(0);
                assert(first_chain(region, 0, p.directory.len()) == 0);
                assert(unit_lens(region, 0) =~= Seq::<usize>::empty());
                assert(v.seek(0, after_damage).1);
            } else {
                assert(!sync_candidate(b, 0));
                lemma_sought_later(v, 0, after_damage);
            }
        },
    }
}

/// An access unit without a major sync at the front of a chain is handed out whole if its parts
/// hold, whatever follows it; if not, it is a sync error and not handed out.
pub proof fn law_minor_unit(v: FramerView, p: MinorParts, more: Seq<u8>)
    requires
        v.valid(),
        v.lock is Locked,
        v.queued.len() == 0,
        p.laid_out(),
        p.directory.len() == v.substreams,
        v.pending == p.bytes() + more,
    ensures
        ({
            let (w, r) = v.next();
            if p.parity_holds() {
                &&& r == NextView::Au(
                    AuInfo {
                        offset: v.consumed as u64,
                        ordinal: v.ordinal as u64,
                        major_sync: false,
                    },
                    p.bytes(),
                )
                &&& w.pending == more
                &&& w.substreams == v.substreams
                &&& w.ordinal == v.ordinal + 1
                &&& w.lock is Locked
                &&& w.queued.len() == 0
                &&& w.sync_errors == v.sync_errors
                &&& w.estimated == v.estimated
                &&& w.skipped_bytes == v.skipped_bytes
            } else {
                &&& r matches NextView::Au(info, _) ==> info.offset > v.consumed
                &&& w.sync_errors == v.sync_errors + 1
            }
        }),
{
    reveal(FramerView::next);
    lemma_minor_bytes(p, more);
    let b = v.pending;
    assert(b.skip(p.bytes().len() as int) =~= more);
    if !p.parity_holds() {
        let u = FramerView { sync_errors: v.sync_errors + 1, ..v };
        let s = FramerView { lock: Lock::Seeking { scan: 1, after_damage: true }, ..u };
        lemma_sought_later(s, 1, true);
        assert(s.next_sought(1, true) == u.next_sought(1, true));
    }
}

/// What the framer hands out says what its value says.
pub proof fn law_next_read<'a>(next: Next<'a>)
    ensures
        match next {
            Next::Au(info, bytes) => next@ == NextView::Au(info, bytes@),
            Next::Skipped(info) => next@ == NextView::Skipped(info),
            Next::NeedData => next@ == NextView::NeedData,
        },
{
}

} // verus!
