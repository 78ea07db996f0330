//! What an object audio metadata payload says of each channel, and what a change of a channel is,
//! field by field.

use crate::objects::{flag_if, labels_of, set_labels, ObjectPayload};
use crate::stream::{bed_speaker, BED_LABELS};
use crate::types::{equal_triples, Element, Single};
use vstd::prelude::*;

verus! {

/// The places of the labels that the beds have, bed by bed, lowest first.
pub open spec fn bed_places(beds: Seq<[bool; 17]>) -> Seq<int> {
    beds.map_values(
        |bed: [bool; 17]| Seq::new(17, |n: int| n).filter(|n: int| bed[n]),
    ).flatten()
}

/// Whether a payload's object data can be taken in for a presentation of `channels` channels: it
/// describes each of them, its beds and ISF channels are no more, there is a label for each bed
/// channel, and every channel states every update.
pub open spec fn well_formed(payload: ObjectPayload, channels: int) -> bool {
    payload.object_data matches Some(data) && {
        &&& payload.object_count == channels
        &&& channels <= 16
        &&& bed_places(payload.bed_assignment@).len() == payload.bed_objects
        &&& payload.bed_objects + payload.isf_objects <= payload.object_count
        &&& data.updates@.len() == data.update_count
        &&& data.objects@.len() == payload.object_count
        &&& forall|i: int|
            0 <= i < data.objects@.len() ==> (#[trigger] data.objects@[i])@.len()
                == data.update_count
    }
}

/// Whether all three numbers are zero.
pub open spec fn zeros(t: [Single; 3]) -> bool {
    t[0].bits == 0 && t[1].bits == 0 && t[2].bits == 0
}

/// Whether `e` has the gain and priority that the payload states for object `i` at update `k`: it
/// is silent exactly where the gain code stands for silence.
pub open spec fn states_level(payload: ObjectPayload, i: int, k: int, e: Element) -> bool {
    let od = payload.object_data->0.objects[i][k];
    &&& od.gain_code == -128 ==> e.gain.bits == 0 && e.gain_db.bits == 0xFF80_0000
    &&& od.gain_code != -128 ==> e.gain == od.gain && e.gain_db == od.gain_db
    &&& e.priority == od.priority
    &&& (e.flags & 0x001 != 0) == !od.not_active
}

/// Whether `e` has the kind, speaker and position that the payload gives channel `i`: first the
/// beds, each at the place of its label, then the ISF channels, then the objects, each where its
/// refined position or else its position at update `k` puts it.
pub open spec fn states_place(payload: ObjectPayload, i: int, k: int, e: Element) -> bool {
    let od = payload.object_data->0.objects[i][k];
    let beds = payload.bed_objects as int;
    let isf_end = beds + payload.isf_objects;
    let place = bed_places(payload.bed_assignment@)[i];
    &&& i < beds ==> {
        &&& 0 <= place < 17
        &&& e.kind == (if place == 3 || place == 16 {
            1u8
        } else {
            0u8
        })
        &&& e.speaker == bed_speaker(place)
        &&& e.position == payload.bed_positions[place]
    }
    &&& beds <= i < isf_end ==> {
        &&& e.kind == 3
        &&& e.speaker == 254
        &&& zeros(e.position)
    }
    &&& isf_end <= i ==> {
        &&& e.kind == 2
        &&& e.speaker == 254
        &&& match payload.extended {
            Some(x) => if i < x.positions@.len() && k < x.positions@[i]@.len() {
                e.position == x.positions@[i]@[k]
            } else {
                e.position == od.position
            },
            None => e.position == od.position,
        }
    }
}

/// Whether `e` has the rendering data that the payload states for object `i` at update `k`, if it
/// is an object, and none if it is not.
pub open spec fn states_rendering(payload: ObjectPayload, i: int, k: int, e: Element) -> bool {
    let od = payload.object_data->0.objects[i][k];
    let object = i >= payload.bed_objects + payload.isf_objects;
    let diverges = match payload.extended {
        Some(x) => x.has_divergence && i < x.divergence@.len() && k < x.divergence@[i]@.len()
            && x.divergence@[i]@[k].present,
        None => false,
    };
    &&& !object ==> {
        &&& e.zone == 0
        &&& zeros(e.size)
        &&& e.divergence.bits == 0
        &&& e.distance.bits == 0
        &&& e.screen_factor.bits == 0
        &&& e.depth_factor.bits == 0
        &&& e.flags & 0x07C == 0
    }
    &&& object ==> {
        &&& e.zone == od.zone
        &&& e.size == od.size
        &&& e.depth_factor == od.depth_factor
        &&& od.use_screen_ref ==> e.screen_factor == od.screen_factor
        &&& !od.use_screen_ref ==> e.screen_factor.bits == 0
        &&& match od.distance {
            Some(d) => if od.distance_specified {
                e.distance == d
            } else {
                e.distance.bits == 0
            },
            None => e.distance.bits == 0,
        }
        &&& diverges ==> e.divergence == payload.extended->0.divergence@[i]@[k].amount
        &&& !diverges ==> e.divergence.bits == 0
        &&& (e.flags & 0x004 != 0) == od.snap
        &&& (e.flags & 0x008 != 0) == od.elevation
        &&& (e.flags & 0x010 != 0) == od.use_screen_ref
        &&& (e.flags & 0x020 != 0) == od.distance_specified
        &&& (e.flags & 0x040 != 0) == diverges
    }
}

/// The entry of channel `i` at update `k`, or its last one where it states fewer, given that it
/// states any.
pub open spec fn standing<T>(table: Seq<Vec<T>>, i: int, k: int) -> T {
    let row = table[i]@;
    if k < row.len() {
        row[k]
    } else {
        row.last()
    }
}

/// Whether `e` has the trim, headphone and dialog data that the payload states for channel `i` at
/// update `k`, whatever its kind.
pub open spec fn states_handling(payload: ObjectPayload, i: int, k: int, e: Element) -> bool {
    &&& (e.flags & 0x080 != 0) == match payload.trim {
        Some(t) => if t.disabled_per_object {
            i < t.disabled@.len() && t.disabled@[i]
        } else {
            t.global_trim_mode == 1
        },
        None => false,
    }
    &&& match payload.headphone {
        Some(h) if i < h@.len() && h@[i]@.len() > 0 => {
            &&& e.headphone_mode == standing(h@, i, k).render_mode
            &&& (e.flags & 0x100 != 0) == standing(h@, i, k).head_track_disable
        },
        _ => e.headphone_mode == 255 && e.flags & 0x100 == 0,
    }
    &&& match payload.dialog {
        Some(d) if i < d@.len() && d@[i]@.len() > 0 => e.dialog == standing(d@, i, k),
        _ => e.dialog == 255,
    }
}

/// Whether `e` is channel `i` as the payload states it at update `k`, with or without a CHANGED
/// marker.
pub open spec fn states(payload: ObjectPayload, i: int, k: int, e: Element) -> bool {
    &&& states_level(payload, i, k, e)
    &&& states_place(payload, i, k, e)
    &&& states_rendering(payload, i, k, e)
    &&& states_handling(payload, i, k, e)
    &&& e.flags < 0x200
}

proof fn lemma_set_labels(bed: [bool; 17], n: int)
    requires
        0 <= n <= 17,
    ensures
        set_labels(bed@, n).map_values(|l: usize| l as int) == Seq::new(
            n as nat,
            |m: int| m,
        ).filter(|m: int| bed[m]),
        forall|i: int| 0 <= i < set_labels(bed@, n).len() ==> #[trigger] set_labels(bed@, n)[i] < n,
    decreases n,
{
    reveal(Seq::filter);
    let all = Seq::new(n as nat, |m: int| m);
    let f = |l: usize| l as int;
    if n > 0 {
        lemma_set_labels(bed, n - 1);
        assert(all.drop_last() =~= Seq::new((n - 1) as nat, |m: int| m));
        let before = set_labels(bed@, n - 1);
        if bed[n - 1] {
            assert(before.push((n - 1) as usize).map_values(f) =~= before.map_values(f).push(
                n - 1,
            ));
        }
    } else {
        assert(set_labels(bed@, n).map_values(f) =~= Seq::<int>::empty());
        assert(all =~= Seq::<int>::empty());
    }
}

/// The labels taken from the beds are those that they have, bed by bed, lowest first.
pub proof fn law_labels(beds: Seq<[bool; 17]>)
    ensures
        labels_of(beds).map_values(|l: usize| l as int) == bed_places(beds),
        labels_of(beds).len() == bed_places(beds).len(),
        forall|i: int| 0 <= i < labels_of(beds).len() ==> #[trigger] labels_of(beds)[i] < 17,
    decreases beds.len(),
{
    let f = |l: usize| l as int;
    let g = |bed: [bool; 17]| Seq::new(17, |n: int| n).filter(|n: int| bed[n]);
    if beds.len() == 0 {
        assert(labels_of(beds).map_values(f) =~= Seq::<int>::empty());
        assert(beds.map_values(g) =~= Seq::<Seq<int>>::empty());
    } else {
        let last = beds.last();
        let init = beds.drop_last();
        law_labels(init);
        lemma_set_labels(last, 17);
        let more = set_labels(last@, BED_LABELS as int);
        assert(beds.map_values(g) =~= init.map_values(g).push(g(last)));
        init.map_values(g).lemma_flatten_push(g(last));
        assert((labels_of(init) + more).map_values(f) =~= labels_of(init).map_values(f)
            + more.map_values(f));
        assert(more.map_values(f) == g(last));
        assert(bed_places(beds) == beds.map_values(g).flatten());
        assert(bed_places(init) == init.map_values(g).flatten());
        let all = labels_of(beds);
        assert forall|i: int| 0 <= i < all.len() implies #[trigger] all[i] < 17 by {
            if i < labels_of(init).len() {
                assert(all[i] == labels_of(init)[i]);
            } else {
                assert(all[i] == more[i - labels_of(init).len()]);
            }
        }
    }
    assert(labels_of(beds).len() == labels_of(beds).map_values(f).len());
}

proof fn lemma_flags(a: u32, b: u32, c: u32, d: u32, e: u32, f: u32, g: u32, h: u32)
    requires
        a == 0 || a == 0x001,
        b == 0 || b == 0x008,
        c == 0 || c == 0x004,
        d == 0 || d == 0x010,
        e == 0 || e == 0x020,
        f == 0 || f == 0x040,
        g == 0 || g == 0x080,
        h == 0 || h == 0x100,
    ensures
        ({
            let w = a | b | c | d | e | f | g | h;
            &&& w & 0x001 == a
            &&& w & 0x002 == 0
            &&& w & 0x008 == b
            &&& w & 0x004 == c
            &&& w & 0x010 == d
            &&& w & 0x020 == e
            &&& w & 0x040 == f
            &&& w & 0x080 == g
            &&& w & 0x100 == h
            &&& b == 0 && c == 0 && d == 0 && e == 0 && f == 0 ==> w & 0x07C == 0
            &&& w < 0x200
        }),
{
    let w = a | b | c | d | e | f | g | h;
    assert(w & 0x001 == a && w & 0x002 == 0 && w & 0x008 == b && w & 0x004 == c && w & 0x010 == d
        && w & 0x020 == e && w & 0x040 == f && w & 0x080 == g && w & 0x100 == h && (b == 0 && c == 0
        && d == 0 && e == 0 && f == 0 ==> w & 0x07C == 0) && w < 0x200) by (bit_vector)
        requires
            w == a | b | c | d | e | f | g | h,
            a == 0 || a == 0x001,
            b == 0 || b == 0x008,
            c == 0 || c == 0x004,
            d == 0 || d == 0x010,
            e == 0 || e == 0x020,
            f == 0 || f == 0x040,
            g == 0 || g == 0x080,
            h == 0 || h == 0x100,
    ;
}

/// Every channel of a payload that can be taken in is built as the payload states it, whatever
/// its kind, and carries no CHANGED marker.
pub proof fn law_element(payload: ObjectPayload, channels: int, i: int, k: int)
    requires
        well_formed(payload, channels),
        0 <= i < channels,
        0 <= k < payload.object_data->0.updates@.len(),
    ensures
        ({
            let e = payload.element(labels_of(payload.bed_assignment@), i, k);
            states(payload, i, k, e) && e.flags & 0x002 == 0
        }),
{
    let labels = labels_of(payload.bed_assignment@);
    law_labels(payload.bed_assignment@);
    let places = bed_places(payload.bed_assignment@);
    if i < payload.bed_objects {
        assert(labels.map_values(|l: usize| l as int)[i] == places[i]);
        assert(labels[i] < 17);
    }
    let od = payload.object_data->0.objects[i][k];
    let dynamic = i >= payload.bed_objects + payload.isf_objects;
    let headphones = payload.headphones(i, k);
    lemma_flags(
        flag_if(!od.not_active, 0x001),
        flag_if(dynamic && od.elevation, 0x008),
        flag_if(dynamic && od.snap, 0x004),
        flag_if(dynamic && od.use_screen_ref, 0x010),
        flag_if(dynamic && od.distance_specified, 0x020),
        flag_if(dynamic && payload.diverges(i, k) is Some, 0x040),
        flag_if(payload.trim_bypass(i), 0x080),
        flag_if(headphones is Some && headphones->0.head_track_disable, 0x100),
    );
}

/// The place of a number on the number line; both zeros have the same one.
pub open spec fn place(s: Single) -> int {
    if s.bits < 0x8000_0000 {
        s.bits as int
    } else {
        0x8000_0000 - s.bits
    }
}

/// Whether two numbers differ. One that is not a number differs from every one.
pub open spec fn numbers_differ(a: Single, b: Single) -> bool {
    ||| place(a) != place(b)
    ||| !(-0x7F80_0000 <= place(a) <= 0x7F80_0000)
    ||| !(-0x7F80_0000 <= place(b) <= 0x7F80_0000)
}

/// Whether two elements differ in a field that a renderer acts on.
pub open spec fn elements_differ(a: Element, b: Element) -> bool {
    ||| a.kind != b.kind
    ||| a.speaker != b.speaker
    ||| a.zone != b.zone
    ||| a.headphone_mode != b.headphone_mode
    ||| a.dialog != b.dialog
    ||| a.flags & 0xFFFF_FFFD != b.flags & 0xFFFF_FFFD
    ||| exists|n: int| 0 <= n < 3 && numbers_differ(#[trigger] a.position[n], b.position[n])
    ||| exists|n: int| 0 <= n < 3 && numbers_differ(#[trigger] a.size[n], b.size[n])
    ||| numbers_differ(a.gain, b.gain)
    ||| numbers_differ(a.gain_db, b.gain_db)
    ||| numbers_differ(a.divergence, b.divergence)
    ||| numbers_differ(a.priority, b.priority)
    ||| numbers_differ(a.distance, b.distance)
    ||| numbers_differ(a.screen_factor, b.screen_factor)
    ||| numbers_differ(a.depth_factor, b.depth_factor)
}

/// Two numbers compare as equal exactly if they are the same number.
pub proof fn law_numbers(a: Single, b: Single)
    ensures
        a.equals(b) == !numbers_differ(a, b),
{
}

proof fn lemma_triples(a: [Single; 3], b: [Single; 3])
    ensures
        equal_triples(a, b) == !(exists|n: int|
            0 <= n < 3 && numbers_differ(#[trigger] a[n], b[n])),
{
    law_numbers(a[0], b[0]);
    law_numbers(a[1], b[1]);
    law_numbers(a[2], b[2]);
    if equal_triples(a, b) {
        assert forall|n: int| 0 <= n < 3 implies !numbers_differ(#[trigger] a[n], b[n]) by {
            assert(n == 0 || n == 1 || n == 2);
        }
    }
}

/// Two elements compare as equal exactly if they differ in no field, no coordinate of the position
/// and no extent, the CHANGED marker aside.
pub proof fn law_elements_compared(a: Element, b: Element)
    ensures
        a.equal_values(b) == !elements_differ(a, b),
{
    lemma_triples(a.position, b.position);
    lemma_triples(a.size, b.size);
    law_numbers(a.gain, b.gain);
    law_numbers(a.gain_db, b.gain_db);
    law_numbers(a.divergence, b.divergence);
    law_numbers(a.priority, b.priority);
    law_numbers(a.distance, b.distance);
    law_numbers(a.screen_factor, b.screen_factor);
    law_numbers(a.depth_factor, b.depth_factor);
    assert(!2u32 == 0xFFFF_FFFD) by (bit_vector);
}

} // verus!
