//! Access-unit headers: lengths, sync words, the major sync info block and header parity.

use truehd::utils::crc::{CRC_MAJOR_SYNC_INFO_ALG, Crc16};
use vstd::prelude::*;

verus! {

/// Sync word of a TrueHD major sync.
pub const MAJOR_SYNC_FBA: u32 = 0xF872_6FBA;

/// Sync word of an MLP major sync.
pub const MAJOR_SYNC_FBB: u32 = 0xF872_6FBB;

/// Smallest access unit accepted, and the bytes needed to tell a major sync from a minor one.
pub const MIN_AU_LEN: usize = 8;

/// Largest access unit the 12-bit length field can state.
pub const MAX_AU_LEN: usize = 8190;

/// The big-endian 32-bit word in the first four bytes.
pub open spec fn word32(b: Seq<u8>) -> int {
    b[0] * 0x100_0000 + b[1] * 0x1_0000 + b[2] * 0x100 + b[3]
}

/// Whether `w` opens a major sync info block.
pub open spec fn sync_word(w: int) -> bool {
    w == MAJOR_SYNC_FBA || w == MAJOR_SYNC_FBB
}

/// The length in bytes that an access-unit header states: twice its low twelve bits.
pub open spec fn stated_len(b: Seq<u8>) -> int {
    2 * ((b[0] % 16) * 256 + b[1])
}

/// Whether the access unit at the start of `b` carries a sync word.
pub open spec fn opens_major_sync(b: Seq<u8>) -> bool {
    b.len() >= MIN_AU_LEN && sync_word(word32(b.subrange(4, 8)))
}

/// Length of the major sync info block of the access unit at the start of `b`, or `None` while
/// the bytes that decide it are not there yet.
pub open spec fn sync_info_len(b: Seq<u8>) -> Option<int> {
    if b.len() <= 7 {
        None
    } else if b[7] == 0xBB {
        Some(26)
    } else if b.len() <= 29 {
        None
    } else if b[29] % 2 == 0 {
        Some(26)
    } else if b.len() <= 30 {
        None
    } else {
        Some(28 + 2 * (b[30] / 16))
    }
}

/// Where a directory of `entries` substream entries that begins at `pos` ends: an entry takes
/// four bytes if its top bit is set, else two. `None` if `b` ends before the directory does.
pub open spec fn directory_end(b: Seq<u8>, pos: int, entries: nat) -> Option<int>
    decreases entries,
{
    if entries == 0 {
        Some(pos)
    } else if pos >= b.len() {
        None
    } else {
        let width: int = if b[pos] >= 128 { 4 } else { 2 };
        if pos + width > b.len() {
            None
        } else {
            directory_end(b, pos + width, (entries - 1) as nat)
        }
    }
}

/// The exclusive or of all bytes.
pub open spec fn xor_all(s: Seq<u8>) -> u8
    decreases s.len(),
{
    if s.len() == 0 {
        0
    } else {
        xor_all(s.drop_last()) ^ s.last()
    }
}

/// Header nibble parity of the access unit at the start of `b`: the exclusive or of all
/// nibbles of the four header bytes and of the substream directory, which begins `skip` bytes
/// behind them, has all four bits set. `None` if `b` ends before the directory does.
pub open spec fn header_parity(b: Seq<u8>, substreams: nat, skip: int) -> Option<bool> {
    if b.len() < 4 {
        None
    } else {
        match directory_end(b, 4 + skip, substreams) {
            None => None,
            Some(end) => {
                let directory = if substreams == 0 {
                    Seq::empty()
                } else {
                    b.subrange(4 + skip, end)
                };
                let p = xor_all(b.subrange(0, 4) + directory);
                Some(((p >> 4) ^ p) & 0xF == 0xF)
            },
        }
    }
}

/// The remainder `crc` with one more message bit shifted in, modulo x^16 + x^5 + x^3 + x^2 + 1.
pub open spec fn crc_bit(crc: u16, bit: bool) -> u16 {
    let shifted = (crc << 1) | (if bit { 1u16 } else { 0u16 });
    if crc >= 0x8000 { shifted ^ 0x2D } else { shifted }
}

/// The remainder with the top `bits` bits of `byte` shifted in, most significant first.
pub open spec fn crc_bits(crc: u16, byte: u8, bits: nat) -> u16
    decreases bits,
{
    if bits == 0 {
        crc
    } else {
        crc_bit(crc_bits(crc, byte, (bits - 1) as nat), (byte >> (8 - bits) as u8) % 2 == 1)
    }
}

/// The remainder of the whole message `s`, most significant bit of the first byte first.
pub open spec fn sync_info_crc(s: Seq<u8>) -> u16
    decreases s.len(),
{
    if s.len() == 0 {
        0
    } else {
        crc_bits(sync_info_crc(s.drop_last()), s.last(), 8)
    }
}

/// The verdict on the major sync access unit at the start of `b`: `None` while bytes are
/// missing, `Some(None)` if it is not a valid one, else the substream count it declares. A
/// valid one is long enough for its info block, CRC and one directory word, states the CRC of
/// the block behind it, and has correct header parity within its own length.
pub open spec fn major_sync(b: Seq<u8>) -> Option<Option<usize>> {
    match sync_info_len(b) {
        None => None,
        Some(info) => {
            let len = stated_len(b);
            if len <= info + 6 {
                Some(None)
            } else if b.len() < len {
                None
            } else if b[4 + info] * 256 + b[5 + info] != sync_info_crc(b.subrange(4, 4 + info)) {
                Some(None)
            } else if header_parity(b.subrange(0, len), (b[20] / 16) as nat, info + 2) == Some(
                true,
            ) {
                Some(Some((b[20] / 16) as usize))
            } else {
                Some(None)
            }
        },
    }
}

/// The CRC of a major sync info block.
///
/// Calls `Crc16::update` of `truehd::utils::crc` with the algorithm
/// `CRC_MAJOR_SYNC_INFO_ALG` (polynomial 0x2D, initial value 0). Its table-driven step appends
/// one byte at the low end of the remainder, which is what eight single-bit steps do.
#[verifier::external_body]
pub(crate) fn crc_of(info: &[u8]) -> (crc: u16)
    ensures
        crc == sync_info_crc(info@),
{
    let algorithm = Crc16::new(&CRC_MAJOR_SYNC_INFO_ALG);
    algorithm.update(algorithm.init, info)
}

/// Reads the big-endian word in the first four bytes.
pub fn be32(b: &[u8]) -> (w: u32)
    requires
        b.len() >= 4,
    ensures
        w == word32(b@),
{
    b[0] as u32 * 0x100_0000 + b[1] as u32 * 0x1_0000 + b[2] as u32 * 0x100 + b[3] as u32
}

/// Whether `w` is one of the two major sync words.
pub fn is_sync_word(w: u32) -> (r: bool)
    ensures
        r == sync_word(w as int),
{
    w == MAJOR_SYNC_FBA || w == MAJOR_SYNC_FBB
}

/// Reads the access-unit length a header states.
pub fn au_len(b: &[u8]) -> (len: usize)
    requires
        b.len() >= 2,
    ensures
        len == stated_len(b@),
        len <= MAX_AU_LEN,
{
    ((b[0] % 16) as usize * 256 + b[1] as usize) * 2
}

/// Length of the major sync info block that starts four bytes into the access unit: FBB is
/// always 26 bytes, FBA 26 or longer with extra channel meaning.
pub fn major_sync_info_len(b: &[u8]) -> (r: Option<usize>)
    ensures
        r.is_some() == sync_info_len(b@).is_some(),
        r matches Some(n) ==> sync_info_len(b@) == Some(n as int) && 26 <= n <= 58,
{
    if b.len() <= 7 {
        None
    } else if b[7] == 0xBB {
        Some(26)
    } else if b.len() <= 29 {
        None
    } else if b[29] % 2 == 0 {
        Some(26)
    } else if b.len() <= 30 {
        None
    } else {
        Some(28 + 2 * (b[30] / 16) as usize)
    }
}

proof fn lemma_xor_append(s: Seq<u8>, t: Seq<u8>, n: int)
    requires
        0 <= n < t.len(),
    ensures
        xor_all(s + t.subrange(0, n + 1)) == xor_all(s + t.subrange(0, n)) ^ t[n],
{
    let longer = s + t.subrange(0, n + 1);
    assert(longer.drop_last() =~= s + t.subrange(0, n));
    assert(longer.last() == t[n]);
}

/// Access-unit header nibble parity over the 4-byte header and the substream directory, with
/// `skip` bytes (the major sync info and its CRC) in between left out. `None` if `b` ends
/// before the directory does.
pub fn parity(b: &[u8], substreams: usize, skip: usize) -> (r: Option<bool>)
    requires
        skip <= usize::MAX - 8,
    ensures
        r == header_parity(b@, substreams as nat, skip as int),
{
    if b.len() < 4 {
        return None;
    }
    let mut p: u8 = 0;
    let mut i: usize = 0;
    let ghost head = b@.subrange(0, 4);
    let ghost none = Seq::<u8>::empty();
    proof {
        assert(none + head.subrange(0, 0) =~= none);
    }
    while i < 4
        invariant
            i <= 4,
            b.len() >= 4,
            head == b@.subrange(0, 4),
            none == Seq::<u8>::empty(),
            p == xor_all(none + head.subrange(0, i as int)),
        decreases 4 - i,
    {
        proof {
            lemma_xor_append(none, head, i as int);
        }
        p = p ^ b[i];
        i = i + 1;
    }
    let base: usize = 4 + skip;
    let mut pos: usize = base;
    let mut left: usize = substreams;
    let ghost mut seen = Seq::<u8>::empty();
    proof {
        assert(none + head.subrange(0, 4) =~= head + seen);
    }
    while left > 0
        invariant
            base == 4 + skip,
            base <= pos,
            pos <= base || pos <= b.len(),
            b.len() >= 4,
            head == b@.subrange(0, 4),
            left <= substreams,
            left == substreams <==> pos == base,
            seen =~= (if left == substreams {
                Seq::<u8>::empty()
            } else {
                b@.subrange(base as int, pos as int)
            }),
            p == xor_all(head + seen),
            directory_end(b@, base as int, substreams as nat) == directory_end(
                b@,
                pos as int,
                left as nat,
            ),
        decreases left,
    {
        if pos >= b.len() {
            return None;
        }
        let width: usize = if b[pos] >= 128 { 4 } else { 2 };
        if b.len() - pos < width {
            return None;
        }
        let end: usize = pos + width;
        let ghost rest = b@.subrange(base as int, end as int);
        proof {
            assert(rest.subrange(0, pos - base) =~= seen);
        }
        while pos < end
            invariant
                base <= pos <= end <= b.len(),
                rest == b@.subrange(base as int, end as int),
                p == xor_all(head + rest.subrange(0, pos - base)),
            decreases end - pos,
        {
            proof {
                lemma_xor_append(head, rest, pos - base);
            }
            p = p ^ b[pos];
            pos = pos + 1;
        }
        proof {
            seen = rest;
            assert(rest.subrange(0, pos - base) =~= rest);
        }
        left = left - 1;
    }
    Some(((p >> 4) ^ p) & 0xF == 0xF)
}

/// Validates the major sync access unit at the start of `b`: `None` if more bytes are needed,
/// `Some(None)` if it is not a valid one, else its substream count.
pub fn major_sync_at(b: &[u8]) -> (r: Option<Option<usize>>)
    ensures
        r == major_sync(b@),
{
    let info: usize = match major_sync_info_len(b) {
        None => return None,
        Some(n) => n,
    };
    let len: usize = au_len(b);
    if len <= info + 6 {
        return Some(None);
    }
    if b.len() < len {
        return None;
    }
    let stated: u16 = b[4 + info] as u16 * 256 + b[5 + info] as u16;
    if stated != crc_of(vstd::slice::slice_subrange(b, 4, 4 + info)) {
        return Some(None);
    }
    let substreams: usize = (b[20] / 16) as usize;
    if parity(vstd::slice::slice_subrange(b, 0, len), substreams, info + 2) == Some(true) {
        Some(Some(substreams))
    } else {
        Some(None)
    }
}

} // verus!
