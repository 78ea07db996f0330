//! Object metadata: scheduling, delivery and element contents.

use truehd_atmos::objects::{
    Divergence, ExtendedInfo, GAIN_MINUS_INFINITY, HeadphoneInfo, IngestError, ObjectData,
    ObjectInfo, ObjectPayload, ObjectState, TrimInfo, UpdateTime,
};
use truehd_atmos::types::{
    EL_ACTIVE, EL_CHANGED, EL_DISTANCE, EL_DIVERGENCE, EL_ELEVATION, EL_HEAD_TRACK_DISABLE,
    EL_SCREEN_REF, EL_SNAP, EL_TRIM_BYPASS, ELEMENT_BED, ELEMENT_ISF, ELEMENT_LFE, ELEMENT_OBJECT,
    Element, Metadata, SPEAKER_OBJECT, SPEAKER_UNKNOWN, Single, WARP_NOT_SIGNALLED,
};

fn f(x: f32) -> Single {
    Single { bits: x.to_bits() }
}

fn object(tag: f32) -> ObjectInfo {
    ObjectInfo {
        not_active: false,
        gain_code: 0,
        gain: f(1.0),
        gain_db: f(0.0),
        priority: f(1.0),
        position: [f(tag), f(0.5), f(0.0)],
        zone: 0,
        elevation: false,
        snap: false,
        size: [f(0.0); 3],
        use_screen_ref: false,
        screen_factor: f(0.25),
        depth_factor: f(0.0),
        distance_specified: false,
        distance: None,
    }
}

fn bed(labels: &[usize]) -> [bool; 17] {
    let mut bits = [false; 17];
    for &l in labels {
        bits[l] = true;
    }
    bits
}

fn positions() -> [[Single; 3]; 17] {
    let mut table = [[f(0.0); 3]; 17];
    for (i, row) in table.iter_mut().enumerate() {
        row[0] = f(i as f32);
    }
    table
}

/// A payload with bed channels L, R and LFE, then one ISF channel, then dynamic objects.
fn payload(dynamic: usize, times: &[(u8, u16)], tag: f32) -> ObjectPayload {
    let count = 4 + dynamic;
    ObjectPayload {
        object_count: count,
        bed_assignment: vec![bed(&[0, 1]), bed(&[3])],
        bed_positions: positions(),
        bed_objects: 3,
        isf_objects: 1,
        object_data: Some(ObjectData {
            sample_offset: 5,
            update_count: times.len(),
            updates: times
                .iter()
                .map(|&(block_offset_factor, ramp_duration)| UpdateTime {
                    block_offset_factor,
                    ramp_duration,
                })
                .collect(),
            objects: (0..count)
                .map(|i| {
                    (0..times.len()).map(|b| object(tag + i as f32 + b as f32 / 16.0)).collect()
                })
                .collect(),
        }),
        trim: None,
        extended: None,
        headphone: None,
        dialog: None,
    }
}

fn data(p: &mut ObjectPayload) -> &mut ObjectData {
    p.object_data.as_mut().unwrap()
}

fn only_update(p: &ObjectPayload) -> Metadata {
    let mut s = ObjectState::default();
    assert_eq!(s.ingest(p, 0, 0, p.object_count), Ok(()));
    s.begin_block(0, 40).unwrap()
}

fn offsets(m: &Metadata) -> Vec<(u32, u32)> {
    m.updates.iter().map(|u| (u.frame_offset, u.ramp_frames)).collect()
}

#[test]
fn nothing_before_the_first_update() {
    let mut s = ObjectState::default();
    assert!(s.begin_block(0, 40).is_none());
    assert!(s.layout().is_none());
    assert_eq!(s.ingest(&payload(1, &[(2, 0)], 0.0), 0, 0, 5), Ok(()));
    // Due at frame 5 + 2 * 32.
    assert!(s.begin_block(0, 40).is_none());
    let m = s.begin_block(40, 40).unwrap();
    assert_eq!(offsets(&m), vec![(29, 0)]);
    assert_eq!((m.element_count, m.bed_count, m.isf_count, m.dynamic_count), (5, 3, 1, 1));
    assert_eq!(m.warp_mode, WARP_NOT_SIGNALLED);
    assert_eq!(
        &s.layout().unwrap().speakers[..6],
        &[0, 1, 3, SPEAKER_OBJECT, SPEAKER_OBJECT, SPEAKER_UNKNOWN]
    );
    s.clear();
    assert!(s.layout().is_none());
    assert!(s.begin_block(80, 40).is_none());
}

#[test]
fn updates_come_out_with_the_block_they_start_in() {
    let mut s = ObjectState::default();
    // Due at 100 + 3 + 5 + 32k.
    let p = payload(1, &[(0, 1), (1, 2), (4, 3)], 0.0);
    assert_eq!(s.ingest(&p, 100, 3, 5), Ok(()));
    assert_eq!(offsets(&s.begin_block(80, 40).unwrap()), vec![(28, 1)]);
    assert_eq!(offsets(&s.begin_block(120, 40).unwrap()), vec![(20, 2)]);
    assert_eq!(offsets(&s.begin_block(160, 40).unwrap()), vec![]);
    assert_eq!(offsets(&s.begin_block(200, 40).unwrap()), vec![(36, 3)]);
    // Late updates start at the first frame.
    assert_eq!(s.ingest(&p, 100, 3, 5), Ok(()));
    assert_eq!(offsets(&s.begin_block(240, 40).unwrap()), vec![(0, 1), (0, 2), (0, 3)]);
}

#[test]
fn updates_for_the_same_frame_keep_their_order() {
    let mut s = ObjectState::default();
    for ramp in 1..=3 {
        let p = payload(1, &[(1, ramp), (0, 10 + ramp)], ramp as f32);
        assert_eq!(s.ingest(&p, 0, 0, 5), Ok(()));
    }
    let m = s.begin_block(0, 40).unwrap();
    assert_eq!(offsets(&m), vec![(5, 11), (5, 12), (5, 13), (37, 1), (37, 2), (37, 3)]);
    // The elements left standing are those of the last one.
    assert_eq!(m.elements[4].position[0], f(3.0 + 4.0));
}

/// Which of the first six elements of a block's first update are marked CHANGED.
fn marked(m: &Metadata) -> Vec<bool> {
    m.updates[0].elements[..6].iter().map(|e| e.flags & EL_CHANGED != 0).collect()
}

#[test]
fn changes_are_marked_exactly() {
    let mut s = ObjectState::default();
    let p = payload(2, &[(0, 0)], 0.0);
    assert_eq!(s.ingest(&p, 0, 0, 6), Ok(()));
    let m = s.begin_block(0, 40).unwrap();
    assert!(m.updates[0].elements[..6].iter().all(|e| e.flags & EL_CHANGED != 0));
    assert!(m.elements.iter().all(|e| e.flags & EL_CHANGED == 0));
    // The same again but for one object.
    let mut p = payload(2, &[(0, 0)], 0.0);
    data(&mut p).objects[5][0].zone = 3;
    assert_eq!(s.ingest(&p, 40, 0, 6), Ok(()));
    let m = s.begin_block(40, 40).unwrap();
    assert_eq!(marked(&m), [false, false, false, false, false, true]);
    // A negative zero is the same position; a NaN never is.
    let mut p = payload(2, &[(0, 0)], 0.0);
    data(&mut p).objects[5][0].zone = 3;
    data(&mut p).objects[4][0].position[2] = f(-0.0);
    data(&mut p).objects[5][0].position[2] = f(f32::NAN);
    for at in [80, 120] {
        assert_eq!(s.ingest(&p, at, 0, 6), Ok(()));
        let m = s.begin_block(at, 40).unwrap();
        assert_eq!(marked(&m), [false, false, false, false, false, true]);
    }
    // Another layout marks everything.
    let mut p = payload(2, &[(0, 0)], 0.0);
    p.bed_assignment = vec![bed(&[0, 1]), bed(&[2])];
    assert_eq!(s.ingest(&p, 160, 0, 6), Ok(()));
    let m = s.begin_block(160, 40).unwrap();
    assert!(m.updates[0].elements[..6].iter().all(|e| e.flags & EL_CHANGED != 0));
}

#[test]
fn too_many_updates_in_a_block_are_folded() {
    let mut s = ObjectState::default();
    for i in 0..20 {
        assert_eq!(s.ingest(&payload(1, &[(0, i)], i as f32), 0, 0, 5), Ok(()));
    }
    let m = s.begin_block(0, 40).unwrap();
    assert_eq!(offsets(&m), (0..16).map(|i| (5, i)).collect::<Vec<_>>());
    assert_eq!(m.elements[4].position[0], f(19.0 + 4.0));
}

#[test]
fn the_queue_is_bounded() {
    let mut s = ObjectState::default();
    for _ in 0..8 {
        let times: Vec<(u8, u16)> = (0..8).map(|b| (b, 0)).collect();
        assert_eq!(s.ingest(&payload(1, &times, 0.0), 0, 0, 5), Ok(()));
    }
    assert_eq!(s.ingest(&payload(1, &[], 0.0), 0, 0, 5), Ok(()));
    let e = s.ingest(&payload(1, &[(0, 0)], 0.0), 0, 0, 5).unwrap_err();
    assert_eq!(e, IngestError::TooManyPending);
    assert_eq!(e.message(), "too many pending OAMD updates");
}

#[test]
fn payloads_that_do_not_add_up_are_refused() {
    let mut s = ObjectState::default();
    let e = s.ingest(&payload(1, &[(0, 0)], 0.0), 0, 0, 6).unwrap_err();
    assert_eq!(e, IngestError::ElementCount { count: 5, channels: 6 });
    assert_eq!(e.message(), "OAMD describes 5 elements but the presentation decodes 6 channels");
    let e = s.ingest(&payload(13, &[(0, 0)], 0.0), 0, 0, 17).unwrap_err();
    assert_eq!(e, IngestError::ElementCount { count: 17, channels: 17 });
    let mut p = payload(1, &[(0, 0)], 0.0);
    p.bed_objects = 10;
    let e = s.ingest(&p, 0, 0, 5).unwrap_err();
    assert_eq!(e, IngestError::BedAssignment { labels: 3, beds: 10, isf: 1, count: 5 });
    assert_eq!(
        e.message(),
        "OAMD bed assignment inconsistent: 3 labels, 10 bed objects, 1 ISF, 5 elements"
    );
    let mut p = payload(1, &[(0, 0)], 0.0);
    p.isf_objects = 3;
    assert!(matches!(s.ingest(&p, 0, 0, 5), Err(IngestError::BedAssignment { .. })));
    let mut p = payload(1, &[(0, 0)], 0.0);
    data(&mut p).update_count = 2;
    let e = s.ingest(&p, 0, 0, 5).unwrap_err();
    assert_eq!(e, IngestError::ObjectData);
    assert_eq!(e.message(), "OAMD object data does not match its update count");
    let mut p = payload(1, &[(0, 0)], 0.0);
    data(&mut p).objects[2].pop();
    assert_eq!(s.ingest(&p, 0, 0, 5), Err(IngestError::ObjectData));
    let mut p = payload(1, &[(0, 0)], 0.0);
    data(&mut p).objects.pop();
    assert_eq!(s.ingest(&p, 0, 0, 5), Err(IngestError::ObjectData));
    assert!(s.begin_block(0, 1000).is_none());
}

#[test]
fn a_payload_without_objects_restates_trims() {
    let mut s = ObjectState::default();
    let mut p = payload(1, &[(0, 0)], 0.0);
    assert_eq!(s.ingest(&p, 0, 0, 5), Ok(()));
    p.object_data = None;
    p.object_count = 99;
    p.trim = Some(TrimInfo {
        warp_mode: 2,
        global_trim_mode: 0,
        disabled_per_object: false,
        disabled: vec![],
    });
    assert_eq!(s.ingest(&p, 0, 0, 5), Ok(()));
    assert_eq!(s.begin_block(0, 40).unwrap().warp_mode, 2);
    // Trims apply even if the objects are refused.
    let mut p = payload(1, &[(0, 0)], 0.0);
    p.trim = Some(TrimInfo {
        warp_mode: 1,
        global_trim_mode: 0,
        disabled_per_object: false,
        disabled: vec![],
    });
    assert!(s.ingest(&p, 0, 0, 6).is_err());
    assert_eq!(s.begin_block(40, 40).unwrap().warp_mode, 1);
}

#[test]
fn element_kinds_follow_the_layout() {
    let m = only_update(&payload(1, &[(0, 0)], 2.0));
    let e = m.elements;
    assert_eq!([e[0].kind, e[1].kind, e[2].kind], [ELEMENT_BED, ELEMENT_BED, ELEMENT_LFE]);
    assert_eq!([e[3].kind, e[4].kind], [ELEMENT_ISF, ELEMENT_OBJECT]);
    assert_eq!([e[0].speaker, e[1].speaker, e[2].speaker, e[3].speaker], [0, 1, 3, SPEAKER_OBJECT]);
    // Bed channels stand at their speakers, objects where the payload puts them.
    assert_eq!(e[1].position, [f(1.0), f(0.0), f(0.0)]);
    assert_eq!(e[2].position, [f(3.0), f(0.0), f(0.0)]);
    assert_eq!(e[3].position, [f(0.0); 3]);
    assert_eq!(e[4].position, [f(6.0), f(0.5), f(0.0)]);
    assert_eq!(e[4].flags, EL_ACTIVE);
    assert!(e[5].same_values(&Element::empty()));
}

#[test]
fn rendering_data_are_for_objects_only() {
    let mut p = payload(1, &[(0, 0)], 0.0);
    for o in &mut data(&mut p).objects {
        o[0].not_active = true;
        o[0].zone = 4;
        o[0].elevation = true;
        o[0].snap = true;
        o[0].size = [f(0.1), f(0.2), f(0.3)];
        o[0].use_screen_ref = true;
        o[0].depth_factor = f(0.75);
        o[0].distance_specified = true;
        o[0].distance = Some(f(9.0));
    }
    let e = only_update(&p).elements;
    for bed in &e[..4] {
        assert_eq!((bed.flags, bed.zone), (0, 0));
        assert_eq!(bed.size, [f(0.0); 3]);
        assert_eq!([bed.screen_factor, bed.depth_factor, bed.distance], [f(0.0); 3]);
    }
    assert_eq!(e[4].flags, EL_ELEVATION | EL_SNAP | EL_SCREEN_REF | EL_DISTANCE);
    assert_eq!(e[4].zone, 4);
    assert_eq!(e[4].size, [f(0.1), f(0.2), f(0.3)]);
    assert_eq!(e[4].screen_factor, f(0.25));
    assert_eq!(e[4].depth_factor, f(0.75));
    assert_eq!(e[4].distance, f(9.0));
    // A distance that is specified but not given is none.
    data(&mut p).objects[4][0].distance = None;
    assert_eq!(only_update(&p).elements[4].distance, f(0.0));
    // Without a screen reference its factor is not passed on.
    data(&mut p).objects[4][0].use_screen_ref = false;
    assert_eq!(only_update(&p).elements[4].screen_factor, f(0.0));
}

#[test]
fn silence_has_no_gain() {
    assert_eq!(GAIN_MINUS_INFINITY, truehd::structs::oamd::GAIN_MINUS_INFINITY);
    let mut p = payload(1, &[(0, 0)], 0.0);
    data(&mut p).objects[0][0].gain_code = -128;
    data(&mut p).objects[1][0].gain_code = -6;
    data(&mut p).objects[1][0].gain = f(0.5);
    data(&mut p).objects[1][0].gain_db = f(-6.0);
    let e = only_update(&p).elements;
    assert_eq!((e[0].gain, e[0].gain_db), (f(0.0), f(f32::NEG_INFINITY)));
    assert_eq!((e[1].gain, e[1].gain_db), (f(0.5), f(-6.0)));
}

#[test]
fn extended_data_refine_objects() {
    let mut p = payload(2, &[(0, 0), (1, 0)], 0.0);
    let fine = |x: f32| [f(x); 3];
    p.extended = Some(ExtendedInfo {
        has_divergence: true,
        divergence: vec![
            vec![],
            vec![],
            vec![],
            vec![],
            vec![
                Divergence { present: true, amount: f(0.5) },
                Divergence { present: false, amount: f(0.6) },
            ],
            vec![Divergence { present: true, amount: f(0.7) }],
        ],
        positions: vec![vec![fine(9.0); 2], vec![], vec![], vec![], vec![fine(0.1)], vec![]],
    });
    let m = only_update(&p);
    let (first, second) = (m.updates[0].elements, m.updates[1].elements);
    assert_eq!(first[0].position, [f(0.0); 3]);
    assert_eq!(first[4].position, fine(0.1));
    assert_eq!(second[4].position[0], f(4.0 + 1.0 / 16.0));
    assert_eq!((first[4].divergence, second[4].divergence), (f(0.5), f(0.0)));
    assert_eq!((first[5].divergence, second[5].divergence), (f(0.7), f(0.0)));
    assert_eq!(first[4].flags & EL_DIVERGENCE, EL_DIVERGENCE);
    assert_eq!(second[4].flags & EL_DIVERGENCE, 0);
    p.extended.as_mut().unwrap().has_divergence = false;
    assert_eq!(only_update(&p).updates[0].elements[4].divergence, f(0.0));
}

#[test]
fn trim_bypass_is_per_object_or_global() {
    let mut p = payload(1, &[(0, 0)], 0.0);
    let bypass = |p: &ObjectPayload| -> Vec<bool> {
        only_update(p).elements[..5].iter().map(|e| e.flags & EL_TRIM_BYPASS != 0).collect()
    };
    p.trim = Some(TrimInfo {
        warp_mode: 0,
        global_trim_mode: 1,
        disabled_per_object: true,
        disabled: vec![true, false, true],
    });
    assert_eq!(bypass(&p), [true, false, true, false, false]);
    p.trim.as_mut().unwrap().disabled_per_object = false;
    assert_eq!(bypass(&p), [true; 5]);
    p.trim.as_mut().unwrap().global_trim_mode = 2;
    assert_eq!(bypass(&p), [false; 5]);
}

#[test]
fn headphones_and_dialog_repeat_their_last_entry() {
    let mut p = payload(1, &[(0, 0), (1, 0)], 0.0);
    let hp = |render_mode, head_track_disable| HeadphoneInfo { render_mode, head_track_disable };
    p.headphone = Some(vec![vec![hp(1, true)], vec![hp(2, false), hp(3, true)], vec![]]);
    p.dialog = Some(vec![vec![4], vec![5, 6], vec![]]);
    let m = only_update(&p);
    let (first, second) = (m.updates[0].elements, m.updates[1].elements);
    let modes = |e: &[Element; 16]| [0, 1, 2, 3].map(|i: usize| e[i].headphone_mode);
    assert_eq!(modes(&first), [1, 2, 255, 255]);
    assert_eq!(modes(&second), [1, 3, 255, 255]);
    assert_eq!(second[0].flags & EL_HEAD_TRACK_DISABLE, EL_HEAD_TRACK_DISABLE);
    assert_eq!(first[1].flags & EL_HEAD_TRACK_DISABLE, 0);
    let dialog = |e: &[Element; 16]| [e[0].dialog, e[1].dialog, e[2].dialog];
    assert_eq!(dialog(&first), [4, 5, 255]);
    assert_eq!(dialog(&second), [4, 6, 255]);
}
