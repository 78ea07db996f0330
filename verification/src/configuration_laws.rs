//! What the engine makes of a probed stream: which presentation it decodes for each selection, and
//! what the description says of each presentation.

use crate::decode_laws::notes;
use crate::engine_laws::{law_advancing_keeps_position, lemma_discontinuity};
use crate::engine_view::EngineView;
use crate::stream::{
    describes, first_cover, label_code, last_full, last_reached, picked, presents, rate_of,
    reaches, resolved, type_of, PresentationType, StreamDesc, SyncFacts,
};
use crate::types::Stats;
use vstd::prelude::*;

verus! {

/// Whether presentation `i` uses its own substream, or a later one.
pub open spec fn has_own(masks: Seq<u8>, i: int) -> bool {
    if i == 0 {
        masks[0] >= 1
    } else if i == 1 {
        masks[1] >= 2
    } else if i == 2 {
        masks[2] >= 4
    } else {
        masks[3] >= 8
    }
}

/// The last substream that a presentation uses, of the first three.
pub open spec fn last_used(mask: u8) -> int {
    if mask >= 4 {
        2
    } else if mask >= 2 {
        1
    } else {
        0
    }
}

/// Whether decoding presentation `p` is what asking for presentation `i` by number means: `i`
/// itself if it has a substream of its own, and else the one it is a copy of.
pub open spec fn stands_for(masks: Seq<u8>, i: int, p: int) -> bool {
    &&& masks[i] != 0
    &&& has_own(masks, i) ==> p == i
    &&& !has_own(masks, i) ==> p == last_used(masks[i])
}

/// Whether `p` is the highest presentation with a substream of its own, or the first if there is
/// none.
pub open spec fn highest_own(masks: Seq<u8>, p: int) -> bool {
    &&& forall|i: int| p < i < 4 ==> !#[trigger] has_own(masks, i)
    &&& has_own(masks, p) || p == 0
}

/// Whether `p` is the presentation to decode for a selection: the one asked for by number, the
/// highest (-1), or the highest below the object presentation (-2). What the stream does not carry
/// is replaced by the highest presentation with a substream of its own.
pub open spec fn answers(selection: i32, masks: Seq<u8>, p: int) -> bool {
    &&& 0 <= p < 4
    &&& 0 <= selection < 4 && masks[selection as int] != 0 ==> stands_for(
        masks,
        selection as int,
        p,
    )
    &&& 0 <= selection < 4 && masks[selection as int] == 0 ==> highest_own(masks, p)
    &&& selection == -1 && masks[3] != 0 ==> stands_for(masks, 3, p)
    &&& selection == -1 && masks[3] == 0 ==> highest_own(masks, p)
    &&& selection == -2 && masks[2] != 0 ==> stands_for(masks, 2, p)
    &&& selection == -2 && masks[2] == 0 && masks[1] != 0 ==> stands_for(masks, 1, p)
    &&& selection == -2 && masks[2] == 0 && masks[1] == 0 ==> p == 0
    &&& selection < -2 || selection > 3 ==> highest_own(masks, p)
}

proof fn lemma_shifts(m: u8)
    ensures
        (m >> 0u8 != 0) == (m >= 1),
        (m >> 1u8 != 0) == (m >= 2),
        (m >> 2u8 != 0) == (m >= 4),
        (m >> 3u8 != 0) == (m >= 8),
{
    assert((m >> 0u8 != 0) == (m >= 1) && (m >> 1u8 != 0) == (m >= 2) && (m >> 2u8 != 0) == (m >= 4)
        && (m >> 3u8 != 0) == (m >= 8)) by (bit_vector);
}

proof fn lemma_picked(masks: Seq<u8>, i: int)
    requires
        masks.len() == 4,
        0 <= i < 4,
    ensures
        reaches(masks, i, i) == has_own(masks, i),
        picked(masks, i) is Some == (masks[i] != 0),
        picked(masks, i) matches Some(p) ==> stands_for(masks, i, p as int),
{
    lemma_shifts(masks[i]);
    reveal_with_fuel(last_reached, 5);
    assert(i == 0 || i == 1 || i == 2 || i == 3);
    assert(masks[i] >= 1 <==> masks[i] != 0);
}

/// A selection resolves to what it asks for.
pub proof fn law_resolved(selection: i32, masks: Seq<u8>)
    requires
        masks.len() == 4,
    ensures
        answers(selection, masks, resolved(selection, masks) as int),
{
    lemma_picked(masks, 0);
    lemma_picked(masks, 1);
    lemma_picked(masks, 2);
    lemma_picked(masks, 3);
    reveal_with_fuel(last_full, 6);
    if 0 <= selection < 4 {
        assert(selection == 0 || selection == 1 || selection == 2 || selection == 3);
    }
}

/// Whether exactly presentation `p` is required of the decoder, and reported as selected.
pub open spec fn requires_only(v: EngineView, p: int) -> bool {
    &&& v.resolved == p
    &&& v.required.len() == 4
    &&& v.required[0] == (p == 0)
    &&& v.required[1] == (p == 1)
    &&& v.required[2] == (p == 2)
    &&& v.required[3] == (p == 3)
    &&& v.set_required
}

/// A probe that learnt the stream sets the engine up for the presentation that the selection asks
/// for: that one is required of the decoder, and it alone, and reported as selected. The
/// description and the configuration it stands for are the ones in force from then on. Going on to
/// the access unit, or past it, changes none of that.
pub proof fn law_learnt(v: EngineView, desc: StreamDesc)
    requires
        v.unit is Some,
        v.probing is Some,
    ensures
        ({
            let (w, action) = v.configured(desc).after_probe();
            &&& answers(v.selection, desc.map.masks@, w.resolved)
            &&& requires_only(w, w.resolved)
            &&& w.desc == Some(desc)
            &&& w.sync_signature == v.probing->0
            &&& w.selection == v.selection
            &&& w.layout_serial == v.layout_serial
            &&& w.roles == v.roles
            &&& w.sample_position == v.sample_position
        }),
{
    let c = v.configured(desc);
    law_resolved(v.selection, desc.map.masks@);
    let (w, action) = c.decoding(c.unit->0);
    if action is None {
        law_advancing_keeps_position(w);
        lemma_advancing_keeps_setup(w);
    }
}

/// A probe that failed leaves the selection by number, brought into range: 3 for the highest
/// presentation, 2 for the highest channel-based one. What was known of the stream stays as it was,
/// and the reason is noted.
pub proof fn law_not_learnt(v: EngineView, text: Seq<char>)
    requires
        v.unit is Some,
        v.probing is Some,
    ensures
        ({
            let u = v.unconfigured(text);
            let (w, action) = u.after_probe();
            &&& 0 <= v.selection <= 3 ==> requires_only(w, v.selection as int)
            &&& v.selection == -1 || v.selection > 3 ==> requires_only(w, 3)
            &&& v.selection == -2 ==> requires_only(w, 2)
            &&& v.selection < -2 ==> requires_only(w, 0)
            &&& w.desc == v.desc
            &&& w.sync_signature == v.sync_signature
            &&& w.selection == v.selection
            &&& notes(u.last_error, text)
            &&& u.waiting_for_sync == v.waiting_for_sync
        }),
{
    let c = v.unconfigured(text);
    let (w, action) = c.decoding(c.unit->0);
    if action is None {
        law_advancing_keeps_position(w);
        lemma_advancing_keeps_setup(w);
    }
}

/// A configuration that changes while decoding goes on restarts it at the access unit that brings
/// the change: the parser and decoder restart, the metadata so far are forgotten and the next block
/// is flagged. The first configuration, and one that comes while a major sync is waited for, leave
/// all that as it is.
pub proof fn law_configuration_change(v: EngineView, desc: StreamDesc)
    requires
        v.unit is Some,
        v.probing is Some,
        v.pending_flags <= 1,
    ensures
        ({
            let w = v.configured(desc);
            if v.sync_signature.len() > 0 && !v.waiting_for_sync {
                &&& w.waiting_for_sync
                &&& w.restart_codec
                &&& w.pending_flags == 1
                &&& !w.objects.have_state
                &&& w.objects.pending.len() == 0
            } else {
                &&& w.waiting_for_sync == v.waiting_for_sync
                &&& w.restart_codec == v.restart_codec
                &&& w.pending_flags == v.pending_flags
                &&& w.objects == v.objects
            }
        }),
        v.configured(desc).unit == v.unit,
        v.configured(desc).framer == v.framer,
        v.configured(desc).stats == v.stats,
{
    lemma_discontinuity();
}

/// After a probe the same access unit goes on to the decoder, if it has a major sync's first two
/// bytes or none is waited for.
pub proof fn law_probe_goes_on(v: EngineView)
    requires
        v.unit is Some,
        !v.waiting_for_sync || (v.unit->0.data[4] == 0xF8 && v.unit->0.data[5] == 0x72),
    ensures
        v.after_probe().1 is Decode,
        v.after_probe().0 == (EngineView { probing: None, ..v }),
{
}

/// If one is waited for and it has not, it is skipped, and the engine goes on as if pulled.
pub proof fn law_probe_skips(v: EngineView)
    requires
        v.valid(),
        v.unit is Some,
        v.waiting_for_sync,
        !(v.unit->0.data[4] == 0xF8 && v.unit->0.data[5] == 0x72),
    ensures
        v.after_probe() == (EngineView {
            unit: None,
            probing: None,
            stats: Stats {
                access_units_skipped: (v.stats.access_units_skipped + 1) as u64,
                ..v.stats
            },
            ..v
        }).advanced(),
{
}

proof fn lemma_advancing_keeps_setup(v: EngineView)
    ensures
        v.advanced().0.resolved == v.resolved,
        v.advanced().0.required == v.required,
        v.advanced().0.set_required == v.set_required,
        v.advanced().0.sync_signature == v.sync_signature,
    decreases v.framer.pending.len(),
{
    let (w, action) = v.stepped();
    if action is None && w.framer.pending.len() < v.framer.pending.len() {
        lemma_advancing_keeps_setup(w);
    }
}

/// Whether presentation `j` has a substream of its own and also uses substream `i`.
pub open spec fn builds_on(masks: Seq<u8>, j: int, i: int) -> bool {
    &&& has_own(masks, j)
    &&& if i == 0 {
        masks[j] % 2 == 1
    } else if i == 1 {
        masks[j] / 2 % 2 == 1
    } else if i == 2 {
        masks[j] / 4 % 2 == 1
    } else {
        masks[j] / 8 % 2 == 1
    }
}

/// Whether a presentation is said to be carried as the masks have it: not at all (0); on its own
/// (1) or, if a later one builds on its substream, as a downmix of the first that does (2); or as a
/// copy (3) of the last one whose substream it uses.
pub open spec fn carried_as(masks: Seq<u8>, i: int, ptype: int, source: int) -> bool {
    &&& masks[i] == 0 ==> ptype == 0 && source == -1
    &&& masks[i] != 0 && !has_own(masks, i) ==> ptype == 3 && source == last_used(masks[i])
    &&& has_own(masks, i) && (forall|j: int| i < j < 4 ==> !#[trigger] builds_on(masks, j, i))
        ==> ptype == 1 && source == -1
    &&& has_own(masks, i) && (exists|j: int| i < j < 4 && #[trigger] builds_on(masks, j, i)) ==> {
        &&& ptype == 2
        &&& i < source < 4
        &&& builds_on(masks, source, i)
        &&& forall|j: int| i < j < source ==> !#[trigger] builds_on(masks, j, i)
    }
}

/// The number of the presentation that is decoded for presentation `i`.
pub open spec fn decoded_for(masks: Seq<u8>, i: int) -> int {
    if has_own(masks, i) {
        i
    } else {
        last_used(masks[i])
    }
}

proof fn lemma_bits(m: u8)
    ensures
        ((m >> 0u8) & 1 != 0) == (m % 2 == 1),
        ((m >> 1u8) & 1 != 0) == (m / 2 % 2 == 1),
        ((m >> 2u8) & 1 != 0) == (m / 4 % 2 == 1),
        ((m >> 3u8) & 1 != 0) == (m / 8 % 2 == 1),
{
    assert(((m >> 0u8) & 1 != 0) == (m % 2 == 1) && ((m >> 1u8) & 1 != 0) == (m / 2 % 2 == 1) && ((m
        >> 2u8) & 1 != 0) == (m / 4 % 2 == 1) && ((m >> 3u8) & 1 != 0) == (m / 8 % 2 == 1))
        by (bit_vector);
}

proof fn lemma_first_cover(masks: Seq<u8>, i: int, j: int)
    requires
        masks.len() == 4,
        0 <= i < 4,
        0 <= j,
    ensures
        match first_cover(masks, i, j) {
            Some(k) => {
                &&& j <= k < 4
                &&& builds_on(masks, k, i)
                &&& forall|l: int| j <= l < k ==> !#[trigger] builds_on(masks, l, i)
            },
            None => forall|l: int| j <= l < 4 ==> !#[trigger] builds_on(masks, l, i),
        },
    decreases 4 - j,
{
    if j < 4 {
        lemma_first_cover(masks, i, j + 1);
        lemma_bits(masks[j]);
        lemma_picked(masks, j);
        assert(i == 0 || i == 1 || i == 2 || i == 3);
    }
}

proof fn lemma_carried(masks: Seq<u8>, i: int)
    requires
        masks.len() == 4,
        0 <= i < 4,
    ensures
        ({
            let (ptype, source) = match type_of(masks, i) {
                PresentationType::Invalid => (0int, -1int),
                PresentationType::Independent => (1, -1),
                PresentationType::DownmixOf(j) => (2, j as int),
                PresentationType::CopyOf(j) => (3, j as int),
            };
            carried_as(masks, i, ptype, source)
        }),
{
    lemma_picked(masks, i);
    lemma_first_cover(masks, i, i + 1);
}

/// Whether channel `c` of a presentation has the speaker that the stream's labels give it: its
/// label's, or where there is none that of an object, if it is one of objects, and else an unknown
/// one.
pub open spec fn speaks(facts: SyncFacts, n: int, c: int, objects: bool, speaker: u8) -> bool {
    let labelled = n < facts.labels@.len() && facts.labels@[n] is Some && c
        < facts.labels@[n]->0@.len();
    &&& labelled ==> speaker == label_code(facts.labels@[n]->0@[c])
    &&& !labelled && objects ==> speaker == 254
    &&& !labelled && !objects ==> speaker == 255
}

/// A description says what the major sync states: the format, the rate and the frames of an access
/// unit at that rate, whether there are objects, and of each presentation how it is carried, with
/// the channels of the substream it is decoded from. One that is not carried, or would be decoded
/// from a substream that the stream does not have, is absent.
pub proof fn law_description(d: StreamDesc, facts: SyncFacts, i: int)
    requires
        describes(d, facts),
        0 <= i < 4,
    ensures
        ({
            let masks = d.map.masks@;
            let p = d.presentations[i];
            let n = decoded_for(masks, i);
            let fbb = facts.format_sync == 0xF872_6FBB;
            let objects = facts.extra_meaning matches Some((dynamic_only, content)) && (
            dynamic_only || content / 2 % 4 != 0);
            &&& d.format == (if fbb {
                1u32
            } else {
                0u32
            })
            &&& d.sample_rate == 48000 || d.sample_rate == 96000 || d.sample_rate == 192000
                || d.sample_rate == 44100 || d.sample_rate == 88200 || d.sample_rate == 176400
            &&& d.access_unit_frames == (if d.sample_rate < 50000 {
                40int
            } else if d.sample_rate < 100000 {
                80int
            } else {
                160int
            })
            &&& d.substreams == facts.substreams
            &&& d.immersive == (!fbb && facts.substream_info >= 128)
            &&& d.has_objects == (d.immersive && objects)
            &&& if masks[i] == 0 || n >= facts.substreams {
                &&& p.ptype == 0
                &&& p.source == -1
                &&& p.channel_count == 0
                &&& forall|c: int| 0 <= c < 16 ==> #[trigger] p.speakers[c] == 255
            } else {
                &&& carried_as(masks, i, p.ptype as int, p.source as int)
                &&& p.channel_count == (if n < facts.matrix_channels@.len()
                    && facts.matrix_channels@[n] is Some {
                    if facts.matrix_channels@[n]->0 <= 15 {
                        facts.matrix_channels@[n]->0 + 1
                    } else {
                        16int
                    }
                } else {
                    0int
                })
                &&& forall|c: int|
                    0 <= c < p.channel_count ==> speaks(
                        facts,
                        n,
                        c,
                        n == 3 && d.has_objects,
                        #[trigger] p.speakers@[c],
                    )
                &&& forall|c: int|
                    p.channel_count <= c < 16 ==> #[trigger] p.speakers@[c] == 255
            }
        }),
{
    let masks = d.map.masks@;
    lemma_picked(masks, i);
    lemma_carried(masks, i);
    assert(rate_of(facts.sampling_code) == Some(d.sample_rate));
    if let Some((dynamic_only, content)) = facts.extra_meaning {
        assert((content & 6 != 0) == (content / 2 % 4 != 0)) by (bit_vector);
    }
    let p = d.presentations[i];
    assert(presents(p, facts, i));
}

} // verus!
