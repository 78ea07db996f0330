//! Stream descriptions, presentation selection and speaker codes.

use truehd::process::{EXAMPLE_DATA, EXAMPLE_DATA_FBB, EXAMPLE_DATA_FBB_UNEXTRACTABLE};
use truehd_atmos::stream::{
    ChannelLabel, PresentationMap, SyncFacts, major_sync_signature, probe, resolve, roles,
    speaker_name, speaker_of_label, speaker_of_oamd_bed, valid_selection,
};
use truehd_atmos::types::{
    FORMAT_MLP, FORMAT_TRUEHD, PTYPE_ABSENT, PTYPE_COPY, PTYPE_DOWNMIX, PTYPE_INDEPENDENT,
    PresentationInfo, SPEAKER_LFE, SPEAKER_LFE2, SPEAKER_OBJECT, SPEAKER_UNKNOWN,
};

fn facts(
    format_sync: u32,
    sampling_code: u8,
    substreams: u32,
    info: u8,
    extended: u8,
) -> SyncFacts {
    SyncFacts {
        format_sync,
        sampling_code,
        substreams,
        substream_info: info,
        extended_substream_info: extended,
        extra_meaning: None,
        matrix_channels: vec![Some(1), Some(5), Some(7), Some(15)],
        labels: vec![
            Some(vec![ChannelLabel::L, ChannelLabel::R]),
            Some(vec![ChannelLabel::L, ChannelLabel::R, ChannelLabel::C, ChannelLabel::LFE]),
            None,
            Some(vec![ChannelLabel::LFE]),
        ],
    }
}

const FBA: u32 = 0xF872_6FBA;
const FBB: u32 = 0xF872_6FBB;

#[test]
fn speaker_codes_are_the_label_order() {
    assert_eq!(speaker_of_label(ChannelLabel::L), 0);
    assert_eq!(speaker_of_label(ChannelLabel::LFE), SPEAKER_LFE);
    assert_eq!(speaker_of_label(ChannelLabel::Tbl), 10);
    assert_eq!(speaker_of_label(ChannelLabel::LFE2), SPEAKER_LFE2);
    assert_eq!(speaker_name(speaker_of_label(ChannelLabel::Tfc)), "Tfc");
    assert_eq!(speaker_name(10), "Tbl");
    assert_eq!(speaker_name(254), "Obj");
    assert_eq!(speaker_name(24), "?");
    assert_eq!(speaker_name(255), "?");
}

#[test]
fn bed_labels_map_to_the_same_speakers() {
    let codes = [0, 1, 2, 3, 4, 5, 14, 15, 6, 7, 8, 9, 10, 11, 20, 21, 23];
    for (i, &code) in codes.iter().enumerate() {
        assert_eq!(speaker_of_oamd_bed(i), code, "label {i}");
        assert_eq!(speaker_of_oamd_bed(i + 256), code);
    }
    for i in 17..256 {
        assert_eq!(speaker_of_oamd_bed(i), SPEAKER_UNKNOWN);
    }
}

#[test]
fn signatures_leave_out_what_changes() {
    let au = &EXAMPLE_DATA[16..100];
    let mut base = Vec::new();
    assert!(major_sync_signature(au, &mut base));
    assert_eq!(base.len(), 12);
    assert_eq!(&base[..8], &au[4..12]);
    assert_eq!(&base[8..10], &au[14..16]);
    assert_eq!(&base[10..], &au[20..22]);
    for at in 0..84 {
        let mut other = au.to_vec();
        other[at] ^= 0x10;
        let mut out = Vec::new();
        assert!(major_sync_signature(&other, &mut out));
        let part = (4..12).contains(&at) || (14..16).contains(&at) || (20..22).contains(&at);
        assert_eq!(out != base, part, "byte {at}");
    }
    // A refused access unit leaves the buffer alone.
    let mut kept = vec![7];
    assert!(!major_sync_signature(&au[..29], &mut kept));
    assert_eq!(kept, vec![7]);
}

#[test]
fn signatures_take_in_the_extra_channel_meaning() {
    let mut au = vec![0u8; 60];
    au[4..8].copy_from_slice(&[0xF8, 0x72, 0x6F, 0xBA]);
    au[29] = 1;
    au[30] = 0x20;
    let mut out = Vec::new();
    assert!(major_sync_signature(&au, &mut out));
    assert_eq!(out.len(), 12 + 2 + 4);
    assert!(!major_sync_signature(&au[..35], &mut out));
}

#[test]
fn roles_put_labels_first_then_objects() {
    let labels = [ChannelLabel::LFE, ChannelLabel::Lw];
    let mut expect = [SPEAKER_UNKNOWN; 16];
    expect[0] = 3;
    expect[1] = 20;
    assert_eq!(roles(&labels, 4, false), expect);
    expect[2] = SPEAKER_OBJECT;
    expect[3] = SPEAKER_OBJECT;
    assert_eq!(roles(&labels, 4, true), expect);
    assert_eq!(roles(&labels, 1, true)[1], SPEAKER_UNKNOWN);
    assert_eq!(roles(&labels, 99, true)[15], SPEAKER_OBJECT);
}

fn reference(selection: i32, masks: [u8; 4]) -> usize {
    let map = truehd::process::PresentationMap { masks };
    let pick = |i: usize| match map.presentation_type_by_index(i) {
        truehd::process::PresentationType::Invalid => None,
        truehd::process::PresentationType::CopyOf(j) => Some(j),
        _ => Some(i),
    };
    let highest = || map.max_independent_presentation().unwrap_or(0);
    match selection {
        -1 => pick(3).unwrap_or_else(highest),
        -2 => (0..=2).rev().find_map(pick).unwrap_or(0),
        n => pick(n as usize).unwrap_or_else(highest),
    }
}

#[test]
fn selectors_resolve_on_every_map() {
    for bits in 0..=0xFFFFu32 {
        let masks = [
            (bits & 0xF) as u8,
            ((bits >> 4) & 0xF) as u8,
            ((bits >> 8) & 0xF) as u8,
            (bits >> 12) as u8,
        ];
        for selection in -3..=4 {
            let r = resolve(selection, &PresentationMap { masks });
            assert_eq!(r, reference(selection, masks), "{masks:?} {selection}");
            assert!(r < 4);
            if selection == -2 {
                assert!(r <= 2);
            }
        }
    }
}

#[test]
fn selections_are_checked() {
    assert!((-2..=3).all(valid_selection));
    assert!(!valid_selection(-3));
    assert!(!valid_selection(4));
    assert!(!valid_selection(i32::MIN));
}

#[test]
fn an_object_stream_is_described() {
    let mut f = facts(FBA, 0, 4, 0xFC, 3);
    f.extra_meaning = Some((true, 0));
    let d = probe(Ok(Some(f))).unwrap();
    assert_eq!(d.format, FORMAT_TRUEHD);
    assert_eq!((d.sample_rate, d.access_unit_frames, d.substreams), (48000, 40, 4));
    assert!(d.immersive && d.has_objects);
    assert_eq!(d.map.masks, truehd::process::PresentationMap::with_substream_info(0xFC, 3).masks);
    assert_eq!(d.map.masks, [1, 3, 7, 15]);
    let p = d.presentations;
    assert_eq!((p[0].ptype, p[0].source, p[0].channel_count), (PTYPE_DOWNMIX, 1, 2));
    assert_eq!((p[1].ptype, p[1].source, p[1].channel_count), (PTYPE_DOWNMIX, 2, 6));
    assert_eq!((p[2].ptype, p[2].source, p[2].channel_count), (PTYPE_DOWNMIX, 3, 8));
    assert_eq!((p[3].ptype, p[3].source, p[3].channel_count), (PTYPE_INDEPENDENT, -1, 16));
    assert_eq!(&p[1].speakers[..7], &[0, 1, 2, 3, 255, 255, 255]);
    assert_eq!(p[2].speakers, [SPEAKER_UNKNOWN; 16]);
    assert_eq!(p[3].speakers[0], SPEAKER_LFE);
    assert!(p[3].speakers[1..].iter().all(|&s| s == SPEAKER_OBJECT));
}

#[test]
fn objects_take_an_immersive_stream_that_says_so() {
    for (info, extra, immersive, objects) in [
        (0xFCu8, None, true, false),
        (0xFC, Some((false, 0)), true, false),
        (0xFC, Some((false, 1)), true, false),
        (0xFC, Some((false, 2)), true, true),
        (0xFC, Some((false, 4)), true, true),
        (0x7C, Some((true, 6)), false, false),
    ] {
        let mut f = facts(FBA, 0, 4, info, 3);
        f.extra_meaning = extra;
        let d = probe(Ok(Some(f))).unwrap();
        assert_eq!((d.immersive, d.has_objects), (immersive, objects), "{info:x} {extra:?}");
    }
    let mut f = facts(FBB, 0, 4, 0xFC, 3);
    f.extra_meaning = Some((true, 6));
    let d = probe(Ok(Some(f))).unwrap();
    assert_eq!((d.format, d.immersive, d.has_objects), (FORMAT_MLP, false, false));
    assert_eq!(d.map.masks, [1, 3, 0, 0]);
}

#[test]
fn presentations_without_a_substream_are_absent() {
    // Presentation 2 copies 1; the stream has one substream only.
    let d = probe(Ok(Some(facts(FBA, 0, 1, 0x2C, 0)))).unwrap();
    assert_eq!(d.map.masks, [1, 3, 2, 0]);
    assert_eq!(d.presentations[1], PresentationInfo::absent());
    assert_eq!(d.presentations[2].ptype, PTYPE_ABSENT);
    assert_eq!(d.presentations[0].ptype, PTYPE_DOWNMIX);
    let d = probe(Ok(Some(facts(FBA, 0, 2, 0x2C, 0)))).unwrap();
    assert_eq!((d.presentations[2].ptype, d.presentations[2].source), (PTYPE_COPY, 1));
    assert_eq!(d.presentations[2].channel_count, 6);
    assert_eq!(d.presentations[3], PresentationInfo::absent());
}

#[test]
fn channel_counts_are_limited() {
    let mut f = facts(FBA, 0, 1, 0, 0);
    f.matrix_channels = vec![Some(16)];
    assert_eq!(probe(Ok(Some(f))).unwrap().presentations[0].channel_count, 16);
    let mut f = facts(FBA, 0, 1, 0, 0);
    f.matrix_channels = vec![None];
    assert_eq!(probe(Ok(Some(f))).unwrap().presentations[0].channel_count, 0);
    let mut f = facts(FBA, 0, 1, 0, 0);
    f.matrix_channels = vec![];
    assert_eq!(probe(Ok(Some(f))).unwrap().presentations[0].channel_count, 0);
}

#[test]
fn rate_codes_are_those_of_the_format() {
    for code in 0..=255u8 {
        let format = truehd::structs::sync::FormatInfo {
            audio_sampling_frequency_1: code,
            ..Default::default()
        };
        match (probe(Ok(Some(facts(FBA, code, 1, 0, 0)))), format.sampling_frequency_1()) {
            (Ok(d), Ok(rate)) => {
                assert_eq!(d.sample_rate, rate);
                assert_eq!(d.access_unit_frames as usize, format.samples_per_au().unwrap());
            }
            (Err(message), Err(e)) => assert_eq!(message, e.to_string()),
            _ => panic!("code {code}"),
        }
    }
    assert_eq!(probe(Ok(Some(facts(FBA, 10, 1, 0, 0)))).unwrap().sample_rate, 176_400);
    assert_eq!(probe(Ok(Some(facts(FBA, 10, 1, 0, 0)))).unwrap().access_unit_frames, 160);
}

#[test]
fn probe_failures_are_reported() {
    assert_eq!(probe(Err("x y".to_string())).unwrap_err(), "probe: x y");
    assert_eq!(probe(Ok(None)).unwrap_err(), "probe: not a major sync");
    let text = "Invalid format_info: audio_sampling_frequency_1. Read 0x";
    for (code, digits) in [(3u8, "3"), (11, "B"), (16, "10"), (0xAF, "AF"), (0xFF, "FF")] {
        let message = probe(Ok(Some(facts(FBA, code, 1, 0, 0)))).unwrap_err();
        assert_eq!(message, format!("{text}{digits}"));
    }
}

#[test]
fn fbb_signatures_are_twelve_bytes() {
    for au in [EXAMPLE_DATA_FBB, EXAMPLE_DATA_FBB_UNEXTRACTABLE] {
        let mut out = vec![1, 2, 3];
        assert!(major_sync_signature(au, &mut out));
        assert_eq!(out.len(), 12);
    }
}
