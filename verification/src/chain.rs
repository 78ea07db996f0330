//! Recovering the access units in front of a major sync by following their length fields.

use crate::header::{
    au_len, be32, header_parity, is_sync_word, opens_major_sync, parity, stated_len, MIN_AU_LEN,
};
use vstd::prelude::*;
use vstd::slice::slice_subrange;

verus! {

/// Whether a whole access unit with valid header parity, and no major sync, starts at `p`.
pub open spec fn unit_at(region: Seq<u8>, p: int, substreams: nat) -> bool {
    let len = stated_len(region.skip(p));
    &&& 0 <= p
    &&& p + MIN_AU_LEN <= region.len()
    &&& len >= MIN_AU_LEN
    &&& p + len <= region.len()
    &&& !opens_major_sync(region.skip(p))
    &&& header_parity(region.subrange(p, p + len), substreams, 0) == Some(true)
}

/// Whether valid access units lead, hop by hop, from `p` exactly onto the end of `region`.
pub open spec fn chains(region: Seq<u8>, p: int, substreams: nat) -> bool
    decreases region.len() - p,
{
    &&& unit_at(region, p, substreams)
    &&& {
        let next = p + stated_len(region.skip(p));
        next == region.len() || chains(region, next, substreams)
    }
}

/// The earliest position from `p` on that starts a chain, or the end of `region`.
pub open spec fn first_chain(region: Seq<u8>, p: int, substreams: nat) -> int
    decreases region.len() - p,
{
    if p >= region.len() {
        region.len() as int
    } else if chains(region, p, substreams) {
        p
    } else {
        first_chain(region, p + 1, substreams)
    }
}

/// Whether the length fields alone lead from `p` exactly onto the end of `region`.
pub open spec fn tiles(region: Seq<u8>, p: int) -> bool
    decreases region.len() - p,
{
    let len = stated_len(region.skip(p));
    p == region.len() || (p + MIN_AU_LEN <= region.len() && len >= MIN_AU_LEN && p + len
        <= region.len() && tiles(region, p + len))
}

/// The lengths of the access units from `p` to the end of `region`.
pub open spec fn unit_lens(region: Seq<u8>, p: int) -> Seq<usize>
    decreases region.len() - p,
{
    let len = stated_len(region.skip(p));
    if p >= region.len() || len < MIN_AU_LEN || p + len > region.len() {
        Seq::empty()
    } else {
        seq![len as usize] + unit_lens(region, p + len)
    }
}

/// The bytes that a run of access units takes.
pub open spec fn total(lens: Seq<usize>) -> int
    decreases lens.len(),
{
    if lens.len() == 0 {
        0
    } else {
        lens[0] + total(lens.drop_first())
    }
}

pub proof fn lemma_total_concat(a: Seq<usize>, b: Seq<usize>)
    ensures
        total(a + b) == total(a) + total(b),
    decreases a.len(),
{
    if a.len() == 0 {
        assert(a + b =~= b);
    } else {
        lemma_total_concat(a.drop_first(), b);
        assert((a + b).drop_first() =~= a.drop_first() + b);
    }
}

/// A run of access units that tiles a region is as long as the region, and each is long enough
/// to be one.
pub proof fn lemma_tiles_lens(region: Seq<u8>, p: int)
    requires
        tiles(region, p),
        0 <= p <= region.len(),
    ensures
        total(unit_lens(region, p)) == region.len() - p,
        forall|i: int|
            0 <= i < unit_lens(region, p).len() ==> #[trigger] unit_lens(region, p)[i]
                >= MIN_AU_LEN,
        unit_lens(region, p).len() == 0 <==> p == region.len(),
    decreases region.len() - p,
{
    let len = stated_len(region.skip(p));
    if p < region.len() {
        assert(len <= 8190);
        lemma_tiles_lens(region, p + len);
        let rest = unit_lens(region, p + len);
        let all = unit_lens(region, p);
        assert(all.drop_first() =~= rest);
        assert forall|i: int| 0 <= i < all.len() implies #[trigger] all[i] >= MIN_AU_LEN by {
            if i > 0 {
                assert(all[i] == rest[i - 1]);
            }
        }
    }
}

/// A chain tiles the region from its start on.
pub proof fn lemma_chain_tiles(region: Seq<u8>, p: int, substreams: nat)
    requires
        chains(region, p, substreams),
    ensures
        0 <= p < region.len(),
        tiles(region, p),
        (region.len() - p) % 2 == 0,
    decreases region.len() - p,
{
    let next = p + stated_len(region.skip(p));
    assert(tiles(region, region.len() as int));
    if next != region.len() {
        lemma_chain_tiles(region, next, substreams);
    }
}

/// `first_chain` is the least position that starts a chain.
pub proof fn lemma_first_chain(region: Seq<u8>, p: int, substreams: nat)
    requires
        0 <= p <= region.len(),
    ensures
        p <= first_chain(region, p, substreams) <= region.len(),
        first_chain(region, p, substreams) < region.len() ==> chains(
            region,
            first_chain(region, p, substreams),
            substreams,
        ),
        forall|q: int|
            p <= q < first_chain(region, p, substreams) ==> !#[trigger] chains(
                region,
                q,
                substreams,
            ),
    decreases region.len() - p,
{
    if p < region.len() && !chains(region, p, substreams) {
        lemma_first_chain(region, p + 1, substreams);
    }
}

proof fn lemma_first_chain_is(region: Seq<u8>, p: int, substreams: nat, f: int)
    requires
        0 <= p <= f <= region.len(),
        f < region.len() ==> chains(region, f, substreams),
        forall|q: int| p <= q < f ==> !#[trigger] chains(region, q, substreams),
    ensures
        first_chain(region, p, substreams) == f,
    decreases f - p,
{
    if p < f {
        assert(!chains(region, p, substreams));
        lemma_first_chain_is(region, p + 1, substreams, f);
    }
}

/// Whether a whole, valid access unit without a major sync starts at `p`, with its length.
fn unit_len_at(region: &[u8], p: usize, substreams: usize) -> (r: Option<usize>)
    requires
        p <= region.len(),
    ensures
        r.is_some() == unit_at(region@, p as int, substreams as nat),
        r matches Some(len) ==> len == stated_len(region@.skip(p as int)),
{
    let room: usize = region.len() - p;
    if room < MIN_AU_LEN {
        return None;
    }
    let a = slice_subrange(region, p, region.len());
    let len: usize = au_len(a);
    if len < MIN_AU_LEN || len > room || is_sync_word(be32(slice_subrange(a, 4, 8))) {
        return None;
    }
    if parity(slice_subrange(region, p, p + len), substreams, 0) == Some(true) {
        Some(len)
    } else {
        None
    }
}

/// The earliest position whose length fields lead, hop by hop and with valid header parity,
/// exactly onto the end of `region`; its length if there is none.
pub fn chain_start(region: &[u8], substreams: usize) -> (first: usize)
    ensures
        first == first_chain(region@, 0, substreams as nat),
{
    let n: usize = region.len();
    let mut first: usize = n;
    // on_chain[(n - p) / 2]: whether a chain starts at p. Lengths are whole 16-bit words, so
    // every start on a chain is an even distance before the end.
    let mut on_chain: Vec<bool> = vec![false; n / 2 + 1];
    let mut p: usize = n;
    while p >= 2
        invariant
            n == region.len(),
            p <= n,
            (n - p) % 2 == 0,
            on_chain.len() == n / 2 + 1,
            p <= first <= n,
            first < n ==> chains(region@, first as int, substreams as nat),
            forall|q: int|
                p <= q < n && (n - q) % 2 == 0 ==> on_chain[(n - q) / 2] == #[trigger] chains(
                    region@,
                    q,
                    substreams as nat,
                ),
            forall|q: int|
                p <= q < first && (n - q) % 2 == 0 ==> !#[trigger] chains(
                    region@,
                    q,
                    substreams as nat,
                ),
        decreases p,
    {
        p = p - 2;
        let ghost before = on_chain@;
        let starts: bool = match unit_len_at(region, p, substreams) {
            None => false,
            Some(len) => {
                let next: usize = p + len;
                proof {
                    assert((n - next) % 2 == 0);
                    if next < n {
                        assert(on_chain[(n - next) / 2] == chains(
                            region@,
                            next as int,
                            substreams as nat,
                        ));
                    }
                }
                next == n || on_chain[(n - next) / 2]
            },
        };
        proof {
            assert(starts == chains(region@, p as int, substreams as nat));
        }
        on_chain.set((n - p) / 2, starts);
        if starts {
            first = p;
        }
    }
    proof {
        assert forall|q: int| 0 <= q < first implies !#[trigger] chains(
            region@,
            q,
            substreams as nat,
        ) by {
            if chains(region@, q, substreams as nat) {
                lemma_chain_tiles(region@, q, substreams as nat);
                assert(q >= p);
            }
        }
        lemma_first_chain_is(region@, 0, substreams as nat, first as int);
    }
    first
}

/// The lengths of the access units that tile `region`, or `None` if its length fields do not
/// lead exactly onto its end.
pub fn whole_units(region: &[u8]) -> (r: Option<Vec<usize>>)
    ensures
        r.is_some() == tiles(region@, 0),
        r matches Some(lens) ==> lens@ == unit_lens(region@, 0),
{
    let n: usize = region.len();
    let mut lens: Vec<usize> = Vec::new();
    let mut p: usize = 0;
    while p < n
        invariant
            n == region.len(),
            p <= n,
            tiles(region@, 0) == tiles(region@, p as int),
            unit_lens(region@, 0) == lens@ + unit_lens(region@, p as int),
        decreases n - p,
    {
        if n - p < MIN_AU_LEN {
            return None;
        }
        let len: usize = au_len(slice_subrange(region, p, n));
        if len < MIN_AU_LEN || len > n - p {
            return None;
        }
        let ghost rest = unit_lens(region@, p + len);
        proof {
            assert(lens@ + (seq![len] + rest) =~= lens@.push(len) + rest);
        }
        lens.push(len);
        p = p + len;
    }
    proof {
        assert(lens@ + unit_lens(region@, p as int) =~= lens@);
    }
    Some(lens)
}

} // verus!
