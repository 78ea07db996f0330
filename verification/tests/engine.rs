//! The engine driven by scripted decoding, and by the real parser and decoder.

use std::sync::Arc;
use truehd::process::decode::Decoder;
use truehd::process::extract::Frame;
use truehd::process::parse::Parser;
use truehd::process::{EXAMPLE_DATA, EXAMPLE_DATA_FBB, EXAMPLE_DATA_FBB_UNEXTRACTABLE};
use truehd::utils::crc::{CRC_MAJOR_SYNC_INFO_ALG, Crc16};
use truehd_atmos::api::{entry_status, push_status, query_status, ready_status, selection_status};
use truehd_atmos::engine::{Engine, fallback_resolution};
use truehd_atmos::events::{
    Action, DecodeFailure, DecodedUnit, EvoPayload, OamdArrival, OamdFailure, ProbeOutcome,
    panic_message, take_oamd,
};
use truehd_atmos::objects::{ObjectData, ObjectInfo, ObjectPayload, UpdateTime};
use truehd_atmos::stream::{ChannelLabel, SyncFacts, speaker_name, valid_selection};
use truehd_atmos::types::{
    BLOCK_DISCONTINUITY, BLOCK_HAS_METADATA, BLOCK_INPUT_OFFSET_ESTIMATED, BLOCK_LAYOUT_CHANGED,
    BLOCK_METADATA_UPDATED, Block, ERR_BUFFER_FULL, ERR_INVALID_ARGUMENT, ERR_NOT_READY, ERR_NULL,
    ERR_PANIC, NO_PTS, OK, PRESENTATION_HIGHEST, PRESENTATION_HIGHEST_CHANNEL_BASED,
    SPEAKER_OBJECT, SPEAKER_UNKNOWN, Single,
};

fn seal(au: &mut [u8], substreams: usize, skip: usize) {
    au[0] &= 0x0F;
    let mut x = 0u8;
    for &b in au[..4].iter().chain(&au[4 + skip..4 + skip + 2 * substreams]) {
        x ^= b;
    }
    au[0] |= (((x >> 4) ^ x) & 0xF ^ 0xF) << 4;
}

fn minor(len: usize, fill: u8) -> Vec<u8> {
    let mut au = vec![fill & 0x7F; len];
    au[0] = (len >> 9) as u8;
    au[1] = (len >> 1) as u8;
    seal(&mut au, 2, 0);
    au
}

/// A major sync whose configuration bytes hold `config`.
fn major(len: usize, config: u8) -> Vec<u8> {
    let mut au = vec![0u8; len];
    au[0] = (len >> 9) as u8;
    au[1] = (len >> 1) as u8;
    au[4..8].copy_from_slice(&[0xF8, 0x72, 0x6F, 0xBA]);
    au[8] = config;
    au[20] = 2 << 4;
    let crc = Crc16::new(&CRC_MAJOR_SYNC_INFO_ALG);
    let sum = crc.update(crc.init, &au[4..30]);
    au[30..32].copy_from_slice(&sum.to_be_bytes());
    seal(&mut au, 2, 28);
    au
}

/// A stream of `groups` major syncs, each followed by `minors` access units.
fn stream(groups: usize, minors: usize, config: u8) -> Vec<u8> {
    let mut data = Vec::new();
    for g in 0..groups {
        data.extend(major(60, config));
        for m in 0..minors {
            data.extend(minor(24 + 2 * ((g + m) % 5), m as u8));
        }
    }
    data
}

/// An object stream: 16 channels in presentation 3, over 8, 6 and 2.
fn facts() -> SyncFacts {
    SyncFacts {
        format_sync: 0xF872_6FBA,
        sampling_code: 0,
        substreams: 4,
        substream_info: 0xFC,
        extended_substream_info: 3,
        extra_meaning: Some((true, 0)),
        matrix_channels: vec![Some(1), Some(5), Some(7), Some(15)],
        labels: vec![None, None, None, Some(vec![ChannelLabel::LFE])],
    }
}

fn decoded(channels: usize) -> DecodedUnit {
    DecodedUnit {
        sampling_frequency: 48000,
        sample_length: 40,
        channel_count: channels,
        channel_labels: if channels == 16 {
            vec![ChannelLabel::LFE]
        } else {
            vec![ChannelLabel::L, ChannelLabel::R]
        },
        is_duplicate: false,
    }
}

/// Stands for the parser and decoder: every access unit decodes.
struct Script {
    required: [bool; 4],
    restarts: usize,
    probes: usize,
    oamd: Vec<OamdArrival>,
    fail_next: Option<DecodeFailure>,
    duplicate_next: bool,
}

impl Script {
    fn new() -> Self {
        Script {
            required: [false; 4],
            restarts: 0,
            probes: 0,
            oamd: Vec::new(),
            fail_next: None,
            duplicate_next: false,
        }
    }

    fn pull(&mut self, engine: &mut Engine) -> Option<Block> {
        assert!(engine.unit().is_none());
        let mut action = engine.pull();
        loop {
            action = match action {
                Action::NeedMoreData => return None,
                Action::Output(block) => return Some(block),
                Action::Probe => {
                    self.probes += 1;
                    engine.probed(ProbeOutcome::Parsed(Ok(Some(facts()))))
                }
                Action::Decode => {
                    let orders = engine.take_orders();
                    self.restarts += orders.restart as usize;
                    if let Some(required) = orders.required {
                        self.required = required;
                    }
                    if let Some(failure) = self.fail_next.take() {
                        engine.decoded(Err(failure), Vec::new())
                    } else {
                        let mut slots: Vec<Option<DecodedUnit>> = (0..4usize)
                            .map(|i| self.required[i].then_some(decoded([2, 6, 8, 16][i])))
                            .collect();
                        if self.duplicate_next {
                            self.duplicate_next = false;
                            slots.iter_mut().flatten().for_each(|d| d.is_duplicate = true);
                        }
                        engine.decoded(Ok(slots), std::mem::take(&mut self.oamd))
                    }
                }
            };
        }
    }

    fn drain(&mut self, engine: &mut Engine) -> Vec<Block> {
        std::iter::from_fn(|| self.pull(engine)).collect()
    }
}

fn single(x: f32) -> Single {
    Single { bits: x.to_bits() }
}

/// A payload that describes 16 dynamic objects and updates them once, `factor` * 32 frames on.
fn payload(factor: u8) -> ObjectPayload {
    let object = ObjectInfo {
        not_active: false,
        gain_code: 0,
        gain: single(1.0),
        gain_db: single(0.0),
        priority: single(1.0),
        position: [single(0.5); 3],
        zone: 0,
        elevation: false,
        snap: false,
        size: [single(0.0); 3],
        use_screen_ref: false,
        screen_factor: single(0.0),
        depth_factor: single(0.0),
        distance_specified: false,
        distance: None,
    };
    ObjectPayload {
        object_count: 16,
        bed_assignment: vec![[false; 17]],
        bed_positions: [[single(0.0); 3]; 17],
        bed_objects: 0,
        isf_objects: 0,
        object_data: Some(ObjectData {
            sample_offset: 0,
            update_count: 1,
            updates: vec![UpdateTime { block_offset_factor: factor, ramp_duration: 7 }],
            objects: vec![vec![object]; 16],
        }),
        trim: None,
        extended: None,
        headphone: None,
        dialog: None,
    }
}

#[test]
fn arguments_are_checked() {
    assert!(!valid_selection(4));
    assert!(!valid_selection(-3));
    assert_eq!(entry_status(false, false, true), Some(ERR_NULL));
    assert_eq!(push_status(false, false, 4), Some(ERR_NULL));
    assert_eq!(entry_status(false, false, false), Some(ERR_NULL));

    let mut engine = Engine::new(PRESENTATION_HIGHEST);
    assert_eq!(push_status(true, false, 0), Some(OK));
    assert_eq!(push_status(false, true, 0), Some(ERR_NULL));
    assert_eq!(push_status(true, false, 1), Some(ERR_NULL));
    assert_eq!(push_status(true, true, 1), None);
    assert_eq!(query_status(true, false), Some(ERR_NULL)); // as for a pull into no block
    assert_eq!(query_status(false, true), Some(ERR_NULL));
    assert_eq!(query_status(true, true), None);
    assert_eq!(selection_status(true, 7), Some(ERR_INVALID_ARGUMENT));
    assert_eq!(selection_status(false, 7), Some(ERR_NULL));
    assert_eq!(selection_status(true, -2), None);
    assert_eq!(ready_status(engine.stream_info().is_some()), ERR_NOT_READY);
    assert!(matches!(engine.pull(), Action::NeedMoreData));
    assert_eq!(engine.push(&[], 0), OK);
    assert_eq!(speaker_name(10), "Tbl");
    assert_eq!(speaker_name(254), "Obj");
    // A poisoned handle takes a reset and nothing else.
    assert!(!engine.poisoned());
    engine.poison();
    assert_eq!(entry_status(true, engine.poisoned(), false), Some(ERR_PANIC));
    assert_eq!(entry_status(true, engine.poisoned(), true), None);
    engine.reset();
    assert_eq!(entry_status(true, engine.poisoned(), false), None);
}

#[test]
fn input_beyond_the_limit_is_refused_until_pulled() {
    let mut engine = Engine::new(PRESENTATION_HIGHEST);
    let chunk = vec![0u8; 1 << 20];
    let mut accepted = 0;
    while engine.push(&chunk, NO_PTS) == OK {
        accepted += 1;
        assert!(accepted <= 8, "the 8 MiB limit was not enforced");
    }
    assert_eq!(engine.push(&chunk, NO_PTS), ERR_BUFFER_FULL);
    assert_eq!(engine.stats().bytes_pending, 8 << 20);
    // Pulling scans (and, holding no major sync, lets go of) the garbage.
    assert!(Script::new().drain(&mut engine).is_empty());
    assert_eq!(engine.push(&chunk, NO_PTS), OK);
}

#[test]
fn blocks_follow_each_other() {
    let mut engine = Engine::new(PRESENTATION_HIGHEST);
    let mut script = Script::new();
    let data = stream(2, 3, 0);
    assert_eq!(engine.push(&data, 5), OK);
    let blocks = script.drain(&mut engine);
    assert_eq!(blocks.len(), 8);
    for (i, b) in blocks.iter().enumerate() {
        assert_eq!((b.sample_rate, b.frame_count), (48000, 40));
        assert_eq!((b.channel_count, b.presentation), (16, 3));
        assert_eq!(b.sample_position, 40 * i as u64);
        assert_eq!(b.input_access_unit, i as u64);
        assert_eq!(b.input_frame_offset, 40 * i as u64);
        assert_eq!((b.pts, b.pts_au_index), (5, i as u32));
        assert_eq!((b.layout_serial, b.access_unit_frames), (1, 40));
        let flags = if i == 0 { BLOCK_DISCONTINUITY | BLOCK_LAYOUT_CHANGED } else { 0 };
        assert_eq!(b.flags, flags);
        assert_eq!(b.speakers[0], 3);
        assert!(b.speakers[1..].iter().all(|&s| s == SPEAKER_OBJECT));
        assert!(b.metadata.is_none());
    }
    assert_eq!(script.probes, 1);
    let s = engine.stats();
    assert_eq!((s.bytes_pushed, s.bytes_pending), (data.len() as u64, 0));
    assert_eq!((s.access_units_decoded, s.blocks_output, s.frames_output), (8, 8, 320));
    assert_eq!((s.access_units_skipped, s.decode_errors, s.sync_errors), (0, 0, 0));
    let info = engine.stream_info().unwrap();
    assert_eq!((info.selected_presentation, info.immersive, info.has_objects), (3, 1, 1));
    assert_eq!((info.oamd_seen, info.layout_serial, info.substream_count), (0, 1, 4));
    assert_eq!(engine.last_error(), "");
}

#[test]
fn cutting_the_input_changes_only_the_attribution() {
    let data = stream(4, 6, 0);
    let blocks = |step: usize| -> Vec<(u64, u64, u64, u32, u32)> {
        let mut engine = Engine::new(PRESENTATION_HIGHEST);
        let mut script = Script::new();
        let mut out = Vec::new();
        for chunk in data[7..].chunks(step) {
            assert_eq!(engine.push(chunk, 0), OK);
            out.extend(script.drain(&mut engine));
        }
        let s = engine.stats();
        assert_eq!(s.access_units_skipped + s.access_units_decoded + s.decode_errors, 27);
        out.iter()
            .map(|b| {
                let places = (b.input_access_unit, b.input_frame_offset, b.sample_position);
                (places.0, places.1, places.2, b.flags, b.layout_serial)
            })
            .collect()
    };
    let whole = blocks(data.len());
    // The first access unit is cut, and the six behind it come before the first whole major sync.
    assert_eq!(whole.len(), 21);
    assert_eq!(whole[0].0, 6);
    for step in [1, 3, 10, 59, 200] {
        assert_eq!(blocks(step), whole, "pushes of {step}");
    }
}

#[test]
fn pts_belongs_to_the_push_of_the_first_byte() {
    let mut engine = Engine::new(PRESENTATION_HIGHEST);
    let mut script = Script::new();
    let data = stream(1, 4, 0); // 60, then 24, 26, 28 and 30 bytes
    for (i, chunk) in data.chunks(50).enumerate() {
        assert_eq!(engine.push(chunk, 100 + i as i64), OK);
    }
    let got: Vec<(i64, u32)> =
        script.drain(&mut engine).iter().map(|b| (b.pts, b.pts_au_index)).collect();
    assert_eq!(got, [(100, 0), (101, 0), (101, 1), (102, 0), (102, 1)]);
}

#[test]
fn switching_presentation_changes_layout_at_the_next_major_sync() {
    let mut engine = Engine::new(PRESENTATION_HIGHEST);
    let mut script = Script::new();
    assert_eq!(engine.push(&stream(1, 2, 0), 0), OK);
    let before = script.drain(&mut engine);
    assert!(before.iter().all(|b| b.presentation == 3 && b.channel_count == 16));
    engine.set_presentation(PRESENTATION_HIGHEST_CHANNEL_BASED);
    assert_eq!(engine.selection(), PRESENTATION_HIGHEST_CHANNEL_BASED);
    let mut more = minor(30, 1);
    more.extend(stream(1, 2, 0));
    assert_eq!(engine.push(&more, 1), OK);
    let after = script.drain(&mut engine);
    assert_eq!(after.len(), 3);
    assert_eq!((after[0].presentation, after[0].channel_count), (2, 8));
    let flags = after[0].flags;
    assert!(flags & BLOCK_DISCONTINUITY != 0 && flags & BLOCK_LAYOUT_CHANGED != 0);
    assert_ne!(after[0].layout_serial, before[0].layout_serial);
    assert!(after.iter().all(|b| b.layout_serial == after[0].layout_serial));
    // The access unit in between was skipped, not lost.
    assert_eq!(after[0].input_access_unit, 4);
    assert_eq!(engine.stats().access_units_skipped, 1);
    assert_eq!(script.probes, 2);
    assert_eq!(script.restarts, 1);
}

#[test]
fn reset_keeps_the_layout_serial_of_the_same_stream() {
    let mut engine = Engine::new(PRESENTATION_HIGHEST);
    let mut script = Script::new();
    let data = stream(2, 2, 0);
    assert_eq!(engine.push(&data, 0), OK);
    let first = script.drain(&mut engine);
    engine.reset();
    assert_eq!(engine.stats(), truehd_atmos::types::Stats::default());
    assert_eq!(engine.push(&data, 0), OK);
    let second = script.drain(&mut engine);
    assert_eq!(first.len(), second.len());
    assert_eq!(first[0].layout_serial, second[0].layout_serial);
    assert!(second[0].flags & BLOCK_DISCONTINUITY != 0);
    assert!(second[0].flags & BLOCK_LAYOUT_CHANGED == 0);
    assert_eq!(second[0].sample_position, 0);
    assert_eq!(second[0].input_access_unit, 0);
    assert_eq!(script.probes, 1);
    assert!(engine.stream_info().is_some());
}

#[test]
fn a_new_configuration_restarts_decoding() {
    let mut engine = Engine::new(PRESENTATION_HIGHEST);
    let mut script = Script::new();
    let mut data = stream(1, 1, 0);
    data.extend(stream(1, 1, 0x10));
    assert_eq!(engine.push(&data, 0), OK);
    let blocks = script.drain(&mut engine);
    assert_eq!(script.probes, 2);
    assert_eq!(script.restarts, 1);
    let flags: Vec<u32> = blocks.iter().map(|b| b.flags & BLOCK_DISCONTINUITY).collect();
    assert_eq!(flags, [1, 0, 1, 0]);
    assert!(blocks.iter().all(|b| b.layout_serial == 1));
}

#[test]
fn failures_are_counted_and_recovered_from() {
    for (failure, text) in [
        (DecodeFailure::ParserPanicked("x".into()), "parser panicked: x"),
        (DecodeFailure::Parse("bad\0byte".into()), "parse error: bad byte"),
        (DecodeFailure::DecoderPanicked("x".into()), "decoder panicked: x"),
        (DecodeFailure::Decode("x".into()), "decode error: x"),
    ] {
        let mut engine = Engine::new(PRESENTATION_HIGHEST);
        let mut script = Script::new();
        assert_eq!(engine.push(&stream(2, 3, 0), 0), OK);
        assert!(script.pull(&mut engine).is_some());
        script.fail_next = Some(failure);
        let b = script.pull(&mut engine).unwrap();
        // Nothing decodes until the next major sync.
        assert_eq!(b.input_access_unit, 4);
        assert_eq!(b.sample_position, 40);
        assert_eq!(b.flags, BLOCK_DISCONTINUITY);
        assert_eq!(engine.last_error(), text);
        let s = engine.stats();
        assert_eq!((s.decode_errors, s.access_units_skipped, s.access_units_decoded), (1, 2, 2));
    }
}

#[test]
fn an_access_unit_without_presentation_is_a_failure() {
    let mut engine = Engine::new(PRESENTATION_HIGHEST);
    assert_eq!(engine.push(&major(60, 0), 0), OK);
    assert!(matches!(engine.pull(), Action::Probe));
    let unit = engine.unit().unwrap();
    assert_eq!(unit.data, major(60, 0));
    assert!(matches!(engine.probed(ProbeOutcome::Parsed(Ok(Some(facts())))), Action::Decode));
    let orders = engine.take_orders();
    assert_eq!(orders.required, Some([false, false, false, true]));
    assert!(!orders.restart);
    let again = engine.take_orders();
    assert_eq!((again.required, again.restart), (None, false));
    let slots = vec![None, None, None, None];
    assert!(matches!(engine.decoded(Ok(slots), vec![]), Action::NeedMoreData));
    assert_eq!(engine.last_error(), "decoder produced no presentation");
    assert_eq!(engine.stats().decode_errors, 1);
    assert!(engine.unit().is_none());
}

#[test]
fn duplicates_are_dropped() {
    let mut engine = Engine::new(PRESENTATION_HIGHEST);
    let mut script = Script::new();
    assert_eq!(engine.push(&stream(1, 3, 0), 0), OK);
    assert!(script.pull(&mut engine).is_some());
    script.duplicate_next = true;
    let b = script.pull(&mut engine).unwrap();
    assert_eq!((b.input_access_unit, b.sample_position), (2, 40));
    let s = engine.stats();
    assert_eq!((s.duplicate_access_units, s.access_units_decoded, s.blocks_output), (1, 3, 2));
    assert_eq!(s.frames_output, 80);
}

#[test]
fn a_failed_probe_falls_back_to_the_selector() {
    for (selection, index) in [(-1, 3), (-2, 2), (0, 0), (3, 3)] {
        let mut engine = Engine::new(selection);
        assert_eq!(engine.push(&stream(2, 0, 0), 0), OK);
        assert!(matches!(engine.pull(), Action::Probe));
        assert!(matches!(engine.probed(ProbeOutcome::Panicked("why".into())), Action::Decode));
        assert_eq!(engine.last_error(), "probe panicked: why");
        let mut required = [false; 4];
        required[index] = true;
        assert_eq!(engine.take_orders().required, Some(required));
        assert!(engine.stream_info().is_none());
        let slots = vec![Some(decoded(2))];
        let Action::Output(b) = engine.decoded(Ok(slots), vec![]) else {
            panic!("no block");
        };
        assert_eq!((b.presentation, b.access_unit_frames), (0, 40));
        // The probe is tried again.
        assert!(matches!(engine.pull(), Action::Probe));
        assert!(matches!(engine.probed(ProbeOutcome::Parsed(Err("no".into()))), Action::Decode));
        assert_eq!(engine.last_error(), "probe: no");
    }
    let mut engine = Engine::new(0);
    assert_eq!(engine.push(&stream(1, 0, 0), 0), OK);
    assert!(matches!(engine.pull(), Action::Probe));
    assert!(matches!(engine.probed(ProbeOutcome::Parsed(Ok(None))), Action::Decode));
    assert_eq!(engine.last_error(), "probe: not a major sync");
    assert_eq!(fallback_resolution(-5), 0);
    assert_eq!(fallback_resolution(9), 3);
    assert_eq!(fallback_resolution(1), 1);
}

#[test]
fn metadata_travel_with_their_block() {
    let mut engine = Engine::new(PRESENTATION_HIGHEST);
    let mut script = Script::new();
    assert_eq!(engine.push(&stream(1, 5, 0), 0), OK);
    script.oamd = vec![
        OamdArrival { offset: 3, payload: Ok(payload(0)) },
        OamdArrival { offset: 0, payload: Ok(payload(2)) },
        OamdArrival { offset: 0, payload: Err(OamdFailure::Parse("cut".into())) },
    ];
    let b = script.pull(&mut engine).unwrap();
    assert_eq!(
        b.flags,
        BLOCK_DISCONTINUITY | BLOCK_LAYOUT_CHANGED | BLOCK_HAS_METADATA | BLOCK_METADATA_UPDATED
    );
    let m = b.metadata.unwrap();
    assert_eq!((m.element_count, m.dynamic_count, m.updates.len()), (16, 16, 1));
    assert_eq!((m.updates[0].frame_offset, m.updates[0].ramp_frames), (3, 7));
    // The layout of the metadata decides the speakers now.
    assert_eq!(b.speakers, [SPEAKER_OBJECT; 16]);
    assert_eq!(engine.last_error(), "OAMD parse error: cut");
    assert_eq!(engine.stream_info().unwrap().oamd_seen, 1);
    // Frame 64 lies in the second block.
    let b = script.pull(&mut engine).unwrap();
    assert_eq!(b.flags, BLOCK_HAS_METADATA | BLOCK_METADATA_UPDATED);
    assert_eq!(b.metadata.unwrap().updates[0].frame_offset, 24);
    // A refused payload is counted; the elements stand.
    let short = ObjectPayload { object_count: 4, ..payload(0) };
    script.oamd = vec![OamdArrival { offset: 0, payload: Ok(short) }];
    let b = script.pull(&mut engine).unwrap();
    assert_eq!(b.flags, BLOCK_HAS_METADATA);
    assert!(b.metadata.unwrap().updates.is_empty());
    assert_eq!(
        engine.last_error(),
        "OAMD describes 4 elements but the presentation decodes 16 channels"
    );
    script.oamd = vec![OamdArrival { offset: 0, payload: Err(OamdFailure::Panicked("p".into())) }];
    assert!(script.pull(&mut engine).is_some());
    assert_eq!(engine.last_error(), "OAMD parser panicked: p");
    let s = engine.stats();
    assert_eq!((s.oamd_payloads, s.oamd_errors, s.metadata_updates), (2, 3, 2));
    // Decoding that restarts forgets them.
    script.fail_next = Some(DecodeFailure::Parse("x".into()));
    assert!(script.pull(&mut engine).is_none());
    assert_eq!(engine.push(&stream(1, 0, 0), 0), OK);
    let b = script.pull(&mut engine).unwrap();
    assert!(b.metadata.is_none());
    assert_eq!(b.speakers[0], 3);
}

#[test]
fn metadata_are_left_alone_in_other_presentations() {
    let mut engine = Engine::new(2);
    let mut script = Script::new();
    assert_eq!(engine.push(&stream(1, 1, 0), 0), OK);
    script.oamd = vec![OamdArrival { offset: 0, payload: Ok(payload(0)) }];
    let b = script.pull(&mut engine).unwrap();
    assert_eq!(b.presentation, 2);
    assert!(b.metadata.is_none());
    assert_eq!(engine.stats().oamd_payloads, 0);
    assert_eq!(&b.speakers[..3], &[0, 1, SPEAKER_UNKNOWN]);
}

#[test]
fn oamd_is_taken_out_of_the_payloads() {
    let mut payloads = vec![
        EvoPayload { id: 11, sample_offset: Some(9), bytes: vec![1, 2] },
        EvoPayload { id: 5, sample_offset: None, bytes: vec![3] },
        EvoPayload { id: 11, sample_offset: None, bytes: vec![4] },
    ];
    assert_eq!(take_oamd(&mut payloads), vec![(9, vec![1, 2]), (0, vec![4])]);
    let left: Vec<(u32, usize)> = payloads.iter().map(|p| (p.id, p.bytes.len())).collect();
    assert_eq!(left, [(0, 0), (5, 1), (0, 0)]);
}

#[test]
fn panic_messages_are_found() {
    let owned = "owned".to_string();
    assert_eq!(panic_message(Some("literal"), None), "literal");
    assert_eq!(panic_message(None, Some(&owned)), "owned");
    assert_eq!(panic_message(None, None), "unknown panic");
}

#[test]
fn a_damaged_first_access_unit_is_counted() {
    let mut data = stream(2, 4, 0);
    data[14] ^= 0x40; // inside the major sync info: its CRC no longer matches
    let mut engine = Engine::new(PRESENTATION_HIGHEST);
    assert_eq!(engine.push(&data, 7), OK);
    let b = Script::new().pull(&mut engine).unwrap();
    assert_eq!(b.input_access_unit, 5);
    assert_eq!(b.pts, 7);
    assert_eq!(b.pts_au_index as u64, b.input_access_unit);
    assert_ne!(b.flags & BLOCK_INPUT_OFFSET_ESTIMATED, 0);
    assert_eq!(engine.stats().sync_errors, 1);
    assert_eq!(engine.stats().access_units_skipped, 5);
    assert_eq!(
        engine.last_error(),
        "bitstream damage: access units failed their checks; resynchronised at a major sync"
    );
}

#[test]
fn tiny_pushes_far_from_a_major_sync() {
    let mut data = Vec::new();
    let mut units = 0u64;
    while data.len() <= 1 << 16 {
        data.extend(minor(200, units as u8));
        units += 1;
    }
    let sync_at = data.len();
    data.extend(major(60, 0));
    let mut engine = Engine::new(PRESENTATION_HIGHEST);
    let mut script = Script::new();
    let mut first = None;
    for (i, byte) in data.iter().enumerate() {
        assert_eq!(engine.push(&[*byte], i as i64), OK, "push {i} refused");
        first = script.pull(&mut engine);
    }
    let b = first.expect("no block");
    assert!(sync_at > 1 << 16);
    assert_eq!(b.input_access_unit, units);
    // Past 65536 waiting pushes the pts is unknown rather than wrong.
    assert_eq!(b.pts, NO_PTS);
    assert_eq!(b.flags & BLOCK_INPUT_OFFSET_ESTIMATED, 0);

    // Nearer, it is the push that holds the first byte.
    let near = &data[sync_at - 200..];
    let mut engine = Engine::new(PRESENTATION_HIGHEST);
    let mut first = None;
    for (i, byte) in near.iter().enumerate() {
        assert_eq!(engine.push(&[*byte], i as i64), OK);
        first = script.pull(&mut engine);
    }
    let b = first.expect("no block");
    assert_eq!((b.input_access_unit, b.pts, b.pts_au_index), (1, 200, 0));
}

/// Damaged input is counted, and decoding continues.
#[test]
fn damaged_input_is_survived() {
    let data = stream(8000, 15, 0);
    let clean_blocks = {
        let mut engine = Engine::new(PRESENTATION_HIGHEST);
        assert_eq!(engine.push(&data, 0), OK);
        Script::new().drain(&mut engine).len()
    };
    assert_eq!(clean_blocks, 128_000);

    let mut state = 0x2545F4914F6CDD1Du64;
    let mut rand = move || {
        state ^= state << 13;
        state ^= state >> 7;
        state ^= state << 17;
        state
    };
    for round in 0..6 {
        let mut damaged = data.clone();
        // Bit flips, zeroed runs and inserted garbage, spread over the stream.
        let flips = [20usize, 200, 2000, 50, 5, 500][round];
        for _ in 0..flips {
            let at = (rand() as usize) % damaged.len();
            match rand() % 3 {
                0 => damaged[at] ^= 1 << (rand() % 8),
                1 => {
                    let end = (at + 64).min(damaged.len());
                    damaged[at..end].fill(0);
                }
                _ => {
                    let junk: Vec<u8> = (0..(rand() % 700)).map(|_| rand() as u8).collect();
                    damaged.splice(at..at, junk);
                }
            }
        }
        let mut engine = Engine::new(PRESENTATION_HIGHEST);
        let mut script = Script::new();
        let mut blocks = 0;
        for (i, chunk) in damaged.chunks(1 + (rand() % 5000) as usize).enumerate() {
            assert_eq!(engine.push(chunk, i as i64), OK);
            blocks += script.drain(&mut engine).len();
        }
        let s = engine.stats();
        assert!(s.decode_errors + s.sync_errors > 0, "round {round}: damage went unnoticed");
        assert!(
            blocks * 10 >= clean_blocks * 5,
            "round {round}: only {blocks} of {clean_blocks} blocks survived"
        );
        assert!(!engine.last_error().is_empty());
        assert_eq!(s.blocks_output, blocks as u64);
        assert_eq!(s.access_units_decoded, s.blocks_output + s.duplicate_access_units);
        assert_eq!(s.frames_output, 40 * s.blocks_output);
    }

    // Pure noise: no blocks.
    let noise: Vec<u8> = (0..3_000_000).map(|_| rand() as u8).collect();
    let mut engine = Engine::new(PRESENTATION_HIGHEST);
    for chunk in noise.chunks(65536) {
        assert_eq!(engine.push(chunk, NO_PTS), OK);
        assert!(Script::new().drain(&mut engine).is_empty());
    }
}

/// What the real parser reads of a major sync.
fn real_facts(frame: &Frame) -> SyncFacts {
    let mut parser = Box::new(Parser::default());
    parser.set_check_fifo(false);
    let au = parser.parse(frame).unwrap();
    let ms = au.major_sync_info.as_ref().unwrap();
    SyncFacts {
        format_sync: ms.format_sync,
        sampling_code: ms.format_info.audio_sampling_frequency_1,
        substreams: ms.substreams as u32,
        substream_info: ms.substream_info,
        extended_substream_info: ms.extended_substream_info,
        extra_meaning: ms
            .channel_meaning
            .extra_channel_meaning()
            .map(|e| (e.dyn_object_only, e.sixteench_content_description)),
        matrix_channels: au
            .substream_segment
            .iter()
            .map(|s| {
                let header = s.block.first().and_then(|b| b.restart_header.as_ref());
                header.map(|r| r.max_matrix_chan)
            })
            .collect(),
        labels: (0..4usize)
            .map(|i| au.get_channel_labels(i).map(|l| vec![ChannelLabel::L; l.len()]))
            .collect(),
    }
}

/// Decodes a stream with the real parser and decoder.
fn decode_real(data: &[u8], selection: i32) -> (Engine, Vec<Block>) {
    let mut engine = Engine::new(selection);
    let mut parser = Box::new(Parser::default());
    parser.set_check_fifo(false);
    let mut decoder = Box::new(Decoder::default());
    let mut required = [false; 4];
    let mut blocks = Vec::new();
    assert_eq!(engine.push(data, 0), OK);
    let mut action = engine.pull();
    loop {
        let frame = engine.unit().map(|u| Frame {
            timestamp: None,
            data: Arc::from(u.data.as_slice()),
            index: u.info.ordinal,
            offset: u.info.offset,
        });
        action = match action {
            Action::NeedMoreData => return (engine, blocks),
            Action::Output(block) => {
                blocks.push(block);
                engine.pull()
            }
            Action::Probe => {
                let facts = real_facts(&frame.unwrap());
                engine.probed(ProbeOutcome::Parsed(Ok(Some(facts))))
            }
            Action::Decode => {
                let orders = engine.take_orders();
                if orders.restart {
                    parser.reset_for_next_major_sync();
                    decoder.reset_for_next_major_sync();
                }
                if let Some(r) = orders.required {
                    required = r;
                    parser.set_required_presentations(&required);
                }
                let au = parser.parse(&frame.unwrap()).unwrap();
                let slots = decoder.decode_presentations(&au, &required).unwrap();
                let slots = slots
                    .iter()
                    .map(|slot| {
                        slot.as_ref().map(|d| DecodedUnit {
                            sampling_frequency: d.sampling_frequency,
                            sample_length: d.sample_length as u8,
                            channel_count: d.channel_count,
                            channel_labels: vec![ChannelLabel::L; d.channel_labels.len()],
                            is_duplicate: d.is_duplicate,
                        })
                    })
                    .collect();
                engine.decoded(Ok(slots), vec![])
            }
        };
    }
}

#[test]
fn every_presentation_of_every_fixture() {
    for (name, data, rate, units) in [
        ("FBA", EXAMPLE_DATA, 48000, 2),
        ("FBB", EXAMPLE_DATA_FBB, 0, 1),
        ("FBB copy", EXAMPLE_DATA_FBB_UNEXTRACTABLE, 0, 1),
    ] {
        for selection in -2..=3 {
            let (engine, blocks) = decode_real(data, selection);
            assert_eq!(blocks.len(), units, "{name} p{selection}");
            let s = engine.stats();
            assert_eq!(s.decode_errors + s.sync_errors, 0, "{name} p{selection}");
            let info = engine.stream_info().unwrap();
            let b = &blocks[0];
            assert_eq!(info.selected_presentation, b.presentation, "{name} p{selection}");
            assert_eq!(
                info.presentations[b.presentation as usize].channel_count, b.channel_count,
                "{name} p{selection}"
            );
            assert_eq!((info.sample_rate, info.access_unit_frames), (b.sample_rate, b.frame_count));
            if rate != 0 {
                assert_eq!(b.sample_rate, rate);
            }
            if selection == -2 {
                assert!(b.presentation <= 2);
            }
        }
    }
}
