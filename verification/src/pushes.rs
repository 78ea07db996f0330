//! Which push an access unit began in, and how many began in it before.

use crate::types::NO_PTS;
use std::collections::VecDeque;
use vstd::prelude::*;

verus! {

/// Input the caller may push ahead of pulling before more is refused.
pub const MAX_PENDING_INPUT: usize = 0x80_0000;

/// Pushes whose bytes are still unconsumed, tracked for pts attribution.
pub const MAX_PENDING_CHUNKS: usize = 0x1_0000;

/// One push, or several that joined for want of records.
#[derive(Clone, Copy, PartialEq, Eq, Structural, Debug)]
pub struct Chunk {
    /// Stream offset of its first byte.
    pub start: u64,
    pub pts: i64,
    pub serial: u64,
}

/// The pushes that may still hold unconsumed bytes.
pub struct Pushes {
    chunks: VecDeque<Chunk>,
    next_serial: u64,
    pushed: u64,
    au_chunk: Option<u64>,
    au_in_chunk: u32,
}

/// `Pushes` as a mathematical value.
pub struct PushesView {
    pub chunks: Seq<Chunk>,
    pub next_serial: int,
    /// Bytes pushed since reset.
    pub pushed: int,
    /// The push that the last access unit began in.
    pub au_chunk: Option<u64>,
    /// How many access units began in it before that one.
    pub au_in_chunk: int,
}

impl View for Pushes {
    type V = PushesView;

    closed spec fn view(&self) -> PushesView {
        PushesView {
            chunks: self.chunks@,
            next_serial: self.next_serial as int,
            pushed: self.pushed as int,
            au_chunk: self.au_chunk,
            au_in_chunk: self.au_in_chunk as int,
        }
    }
}

/// The records left once those that end at or before `offset` are let go.
pub open spec fn trimmed(chunks: Seq<Chunk>, offset: int) -> Seq<Chunk>
    decreases chunks.len(),
{
    if chunks.len() >= 2 && chunks[1].start <= offset {
        trimmed(chunks.skip(1), offset)
    } else {
        chunks
    }
}

impl PushesView {
    pub open spec fn fresh() -> PushesView {
        PushesView {
            chunks: Seq::empty(),
            next_serial: 0,
            pushed: 0,
            au_chunk: None,
            au_in_chunk: 0,
        }
    }

    /// All records dropped; serials stay unique.
    pub open spec fn after_reset(self) -> PushesView {
        PushesView { next_serial: self.next_serial, ..PushesView::fresh() }
    }

    /// Records follow each other in the stream, each under its own serial.
    pub open spec fn valid(self) -> bool {
        &&& 0 <= self.pushed
        &&& 0 <= self.au_in_chunk
        &&& 0 <= self.next_serial <= u64::MAX
        &&& forall|i: int, j: int|
            0 <= i < j < self.chunks.len() ==> (#[trigger] self.chunks[i]).start < (
            #[trigger] self.chunks[j]).start && self.chunks[i].serial < self.chunks[j].serial
        &&& forall|i: int|
            0 <= i < self.chunks.len() ==> (#[trigger] self.chunks[i]).start < self.pushed
                && self.chunks[i].serial < self.next_serial
        &&& self.au_chunk matches Some(s) ==> s < self.next_serial && (self.chunks.len() > 0 ==> s
            <= self.chunks[0].serial)
    }

    /// Where the first record's bytes end.
    pub open spec fn front_end(self) -> int {
        if self.chunks.len() >= 2 {
            self.chunks[1].start as int
        } else {
            self.pushed
        }
    }

    /// The access units that began in the first record, at eight bytes or more each, and what is
    /// left of it behind `consumed` are no more than can ever be pending.
    pub open spec fn within(self, consumed: int) -> bool {
        self.chunks.len() > 0 && self.au_chunk == Some(self.chunks[0].serial) ==> 8
            * self.au_in_chunk + self.front_end() - consumed <= MAX_PENDING_INPUT
    }

    /// A push of `len` bytes recorded. Past `MAX_PENDING_CHUNKS` records it joins the last one,
    /// which keeps its pts only if the new push has the same one.
    #[verifier::opaque]
    pub open spec fn recorded(self, len: int, pts: i64) -> PushesView {
        if self.chunks.len() < MAX_PENDING_CHUNKS {
            PushesView {
                chunks: self.chunks.push(
                    Chunk { start: self.pushed as u64, pts, serial: self.next_serial as u64 },
                ),
                next_serial: self.next_serial + 1,
                pushed: self.pushed + len,
                ..self
            }
        } else {
            let last = self.chunks.last();
            PushesView {
                chunks: self.chunks.drop_last().push(
                    Chunk {
                        pts: if last.pts == pts {
                            pts
                        } else {
                            NO_PTS
                        },
                        ..last
                    },
                ),
                pushed: self.pushed + len,
                ..self
            }
        }
    }

    /// An access unit that begins at `offset`: the pts of the push holding it, and how many
    /// access units began earlier in that push.
    #[verifier::opaque]
    pub open spec fn attributed(self, offset: int) -> (PushesView, i64, u32) {
        let chunks = trimmed(self.chunks, offset);
        let v = PushesView { chunks, ..self };
        if chunks.len() == 0 || chunks[0].start > offset {
            (v, NO_PTS, 0)
        } else {
            let index: int = if self.au_chunk == Some(chunks[0].serial) {
                self.au_in_chunk + 1
            } else {
                0
            };
            (
                PushesView { au_chunk: Some(chunks[0].serial), au_in_chunk: index, ..v },
                chunks[0].pts,
                index as u32,
            )
        }
    }
}

proof fn lemma_trimmed(v: PushesView, offset: int)
    requires
        v.valid(),
    ensures
        ({
            let t = trimmed(v.chunks, offset);
            &&& PushesView { chunks: t, ..v }.valid()
            &&& t.len() <= v.chunks.len()
            &&& t.len() == 0 <==> v.chunks.len() == 0
            &&& t.len() >= 2 ==> t[1].start > offset
            &&& t.len() > 0 ==> t == v.chunks.skip(v.chunks.len() - t.len())
            &&& t.len() < v.chunks.len() ==> t[0].start <= offset && v.au_chunk != Some(t[0].serial)
        }),
    decreases v.chunks.len(),
{
    if v.chunks.len() >= 2 && v.chunks[1].start <= offset {
        let w = PushesView { chunks: v.chunks.skip(1), ..v };
        assert(v.chunks[0].serial < v.chunks[1].serial);
        lemma_trimmed(w, offset);
        let t = trimmed(v.chunks, offset);
        assert(w.chunks.skip(w.chunks.len() - t.len()) =~= v.chunks.skip(
            v.chunks.len() - t.len(),
        ));
        if t.len() < v.chunks.len() {
            assert(t[0] == v.chunks[v.chunks.len() - t.len()]);
            assert(v.chunks[0].serial < t[0].serial);
        }
    } else {
        assert(v.chunks.skip(0) =~= v.chunks);
    }
}

/// Recording a push keeps the records valid, and their counts within what can be pending.
pub proof fn lemma_recorded(v: PushesView, len: int, pts: i64, consumed: int)
    requires
        v.valid(),
        len > 0,
        v.pushed + len <= u64::MAX,
        v.next_serial < u64::MAX,
        v.within(consumed),
    ensures
        v.recorded(len, pts).valid(),
        v.recorded(len, pts).within(consumed),
        v.recorded(len, pts).pushed == v.pushed + len,
{
    reveal(PushesView::recorded);
}

/// Attribution keeps the records valid, and their counts within what can be pending.
pub proof fn lemma_attributed(v: PushesView, offset: int)
    requires
        v.valid(),
        offset < v.pushed,
        v.pushed - offset <= MAX_PENDING_INPUT,
        v.within(offset),
    ensures
        v.attributed(offset).0.valid(),
        v.attributed(offset).0.within(offset + 8),
        v.attributed(offset).0.pushed == v.pushed,
        v.attributed(offset).0.next_serial == v.next_serial,
{
    reveal(PushesView::attributed);
    lemma_trimmed(v, offset);
}

/// The pts of an access unit is that of the push that holds its first byte: the last one that
/// starts at or before it.
pub proof fn law_attribution(v: PushesView, offset: int, k: int)
    requires
        v.valid(),
        0 <= k < v.chunks.len(),
        v.chunks[k].start <= offset,
        k + 1 < v.chunks.len() ==> offset < v.chunks[k + 1].start,
    ensures
        v.attributed(offset).1 == v.chunks[k].pts,
        v.attributed(offset).0.au_chunk == Some(v.chunks[k].serial),
        v.attributed(offset).0.chunks == v.chunks.skip(k),
{
    reveal(PushesView::attributed);
    lemma_trimmed(v, offset);
    let t = trimmed(v.chunks, offset);
    let d = v.chunks.len() - t.len();
    assert(t[0] == v.chunks[d]);
    if d < k {
        assert(t[1] == v.chunks[d + 1]);
        if d + 1 < k {
            assert(v.chunks[d + 1].start < v.chunks[k].start);
        }
    } else if d > k {
        if k + 1 < d {
            assert(v.chunks[k + 1].start < v.chunks[d].start);
        }
    }
}

/// Two access units in a row that begin in the same push are numbered in a row, and the first
/// that begins in a push is numbered zero.
pub proof fn law_attribution_counts(v: PushesView, offset: int)
    requires
        v.valid(),
        v.chunks.len() > 0,
        v.chunks[0].start <= offset,
        v.au_in_chunk < u32::MAX,
    ensures
        ({
            let (w, _, index) = v.attributed(offset);
            &&& index == w.au_in_chunk
            &&& w.au_chunk is Some
            &&& index == (if w.au_chunk == v.au_chunk {
                v.au_in_chunk + 1
            } else {
                0
            })
        }),
{
    reveal(PushesView::attributed);
    lemma_trimmed(v, offset);
}

impl Default for Pushes {
    fn default() -> (r: Pushes)
        ensures
            r.inv(),
            r@ == PushesView::fresh(),
    {
        Pushes {
            chunks: VecDeque::new(),
            next_serial: 0,
            pushed: 0,
            au_chunk: None,
            au_in_chunk: 0,
        }
    }
}

impl Pushes {
    /// The value is a valid one.
    pub closed spec fn inv(&self) -> bool {
        self@.valid()
    }

    /// The value of the records is always a valid one.
    pub proof fn lemma_valid(&self)
        requires
            self.inv(),
        ensures
            self@.valid(),
    {
    }

    /// Drops all records.
    pub fn reset(&mut self)
        requires
            old(self).inv(),
        ensures
            final(self).inv(),
            final(self)@ == old(self)@.after_reset(),
    {
        self.chunks.clear();
        self.pushed = 0;
        self.au_chunk = None;
        self.au_in_chunk = 0;
    }

    /// Whether one more push can be recorded under a serial of its own.
    pub fn has_serial(&self) -> (r: bool)
        ensures
            r == (self@.next_serial < u64::MAX),
    {
        self.next_serial < u64::MAX
    }

    /// Records a push.
    pub fn record(&mut self, len: usize, pts: i64)
        requires
            old(self).inv(),
            len > 0,
            old(self)@.pushed + len <= u64::MAX,
            old(self)@.next_serial < u64::MAX,
        ensures
            final(self).inv(),
            final(self)@ == old(self)@.recorded(len as int, pts),
            forall|consumed: int|
                #[trigger] old(self)@.within(consumed) ==> final(self)@.within(consumed),
            final(self)@.pushed == old(self)@.pushed + len,
    {
        proof {
            reveal(PushesView::recorded);
        }
        let n: usize = self.chunks.len();
        if n < MAX_PENDING_CHUNKS {
            self.chunks.push_back(Chunk { start: self.pushed, pts, serial: self.next_serial });
            self.next_serial = self.next_serial + 1;
        } else {
            let ghost before = self.chunks@;
            let last: Chunk = self.chunks[n - 1];
            let _ = self.chunks.pop_back();
            self.chunks.push_back(
                Chunk {
                    start: last.start,
                    pts: if last.pts == pts {
                        pts
                    } else {
                        NO_PTS
                    },
                    serial: last.serial,
                },
            );
            proof {
                assert(before.drop_last() =~= before.subrange(0, n - 1));
            }
        }
        self.pushed = self.pushed + len as u64;
    }

    /// The pts of the push holding `offset`, and how many access units began earlier in it.
    pub fn attribute(&mut self, offset: u64) -> (r: (i64, u32))
        requires
            old(self).inv(),
            offset < old(self)@.pushed,
            old(self)@.pushed - offset <= MAX_PENDING_INPUT,
            old(self)@.within(offset as int),
        ensures
            final(self).inv(),
            (final(self)@, r.0, r.1) == old(self)@.attributed(offset as int),
            final(self)@.within(offset + 8),
            final(self)@.pushed == old(self)@.pushed,
    {
        proof {
            reveal(PushesView::attributed);
        }
        let ghost v = self@;
        proof {
            lemma_trimmed(v, offset as int);
        }
        while self.chunks.len() >= 2 && self.chunks[1].start <= offset
            invariant
                self@ == (PushesView { chunks: self@.chunks, ..v }),
                trimmed(self@.chunks, offset as int) == trimmed(v.chunks, offset as int),
            decreases self.chunks.len(),
        {
            let ghost before = self.chunks@;
            let _ = self.chunks.pop_front();
            proof {
                assert(before.skip(1) =~= self.chunks@);
            }
        }
        if self.chunks.len() == 0 {
            return (NO_PTS, 0);
        }
        let chunk: Chunk = self.chunks[0];
        if chunk.start > offset {
            return (NO_PTS, 0);
        }
        let same: bool = match self.au_chunk {
            Some(s) => s == chunk.serial,
            None => false,
        };
        if same {
            self.au_in_chunk = self.au_in_chunk + 1;
        } else {
            self.au_chunk = Some(chunk.serial);
            self.au_in_chunk = 0;
        }
        (chunk.pts, self.au_in_chunk)
    }
}

} // verus!
