//! Framing of synthetic and real byte streams.

use truehd::process::{EXAMPLE_DATA, EXAMPLE_DATA_FBB, EXAMPLE_DATA_FBB_UNEXTRACTABLE};
use truehd::utils::crc::{CRC_MAJOR_SYNC_INFO_ALG, Crc16};
use truehd_atmos::framer::{AuInfo, Framer, MAX_RETAINED, Next};
use truehd_atmos::header::{
    MAJOR_SYNC_FBA, MAJOR_SYNC_FBB, au_len, be32, is_sync_word, major_sync_at, major_sync_info_len,
    parity,
};

/// Sets the check nibble so that the header parity comes out right.
fn seal(au: &mut [u8], substreams: usize, skip: usize) {
    au[0] &= 0x0F;
    let mut x = 0u8;
    for &b in au[..4].iter().chain(&au[4 + skip..4 + skip + 2 * substreams]) {
        x ^= b;
    }
    au[0] |= (((x >> 4) ^ x) & 0xF ^ 0xF) << 4;
}

/// An access unit without a major sync.
fn minor(len: usize, substreams: usize, fill: u8) -> Vec<u8> {
    let mut au = vec![fill & 0x7F; len];
    au[0] = (len >> 9) as u8;
    au[1] = (len >> 1) as u8;
    seal(&mut au, substreams, 0);
    au
}

/// An access unit with a major sync of 26 bytes.
fn major(len: usize, substreams: usize, fill: u8) -> Vec<u8> {
    let mut au = vec![fill & 0x7F; len];
    au[0] = (len >> 9) as u8;
    au[1] = (len >> 1) as u8;
    au[4..8].copy_from_slice(&[0xF8, 0x72, 0x6F, 0xBA]);
    au[20] = (substreams as u8) << 4;
    au[29] = 0;
    let crc = Crc16::new(&CRC_MAJOR_SYNC_INFO_ALG);
    let sum = crc.update(crc.init, &au[4..30]);
    au[30..32].copy_from_slice(&sum.to_be_bytes());
    seal(&mut au, substreams, 28);
    au
}

#[derive(Debug, PartialEq)]
enum Got {
    Au(AuInfo, Vec<u8>),
    Skipped(AuInfo),
}

fn drain(f: &mut Framer) -> Vec<Got> {
    let mut out = Vec::new();
    loop {
        match f.next() {
            Next::Au(info, bytes) => out.push(Got::Au(info, bytes.to_vec())),
            Next::Skipped(info) => out.push(Got::Skipped(info)),
            Next::NeedData => return out,
        }
    }
}

fn info(offset: u64, ordinal: u64, major_sync: bool) -> AuInfo {
    AuInfo { offset, ordinal, major_sync }
}

#[test]
fn sync_words_are_those_of_the_format() {
    assert_eq!(MAJOR_SYNC_FBA, truehd::structs::sync::MAJOR_SYNC_FBA);
    assert_eq!(MAJOR_SYNC_FBB, truehd::structs::sync::MAJOR_SYNC_FBB);
    assert!(is_sync_word(be32(&[0xF8, 0x72, 0x6F, 0xBA])));
    assert!(is_sync_word(be32(&[0xF8, 0x72, 0x6F, 0xBB])));
    assert!(!is_sync_word(be32(&[0xF8, 0x72, 0x6F, 0xBC])));
}

#[test]
fn header_fields_are_read() {
    assert_eq!(au_len(&[0xF0, 0x2A]), 84);
    assert_eq!(au_len(&[0x0F, 0xFF]), 8190);
    assert_eq!(major_sync_info_len(&EXAMPLE_DATA[16..]), Some(26));
    assert_eq!(major_sync_info_len(&EXAMPLE_DATA[16..23]), None);
    assert_eq!(major_sync_info_len(EXAMPLE_DATA_FBB), Some(26));
    let mut extended = vec![0u8; 40];
    extended[29] = 1;
    extended[30] = 0x5A;
    assert_eq!(major_sync_info_len(&extended), Some(28 + 10));
    assert_eq!(major_sync_info_len(&extended[..30]), None);
    extended[7] = 0xBB;
    assert_eq!(major_sync_info_len(&extended[..8]), Some(26));
}

#[test]
fn parity_covers_header_and_directory() {
    let au = minor(20, 2, 0x35);
    assert_eq!(parity(&au, 2, 0), Some(true));
    assert_eq!(parity(&au[..7], 2, 0), None);
    assert_eq!(parity(&au[..3], 0, 0), None);
    let mut bad = au.clone();
    bad[5] ^= 0x10;
    assert_eq!(parity(&bad, 2, 0), Some(false));
    // A directory entry with its top bit set takes four bytes.
    let mut wide = minor(20, 1, 0);
    wide[4] = 0x80;
    assert_eq!(parity(&wide[..7], 1, 0), None);
    assert_eq!(parity(&wide, 1, 0), Some(false));
    wide[6] = 0x80;
    assert_eq!(parity(&wide, 1, 0), Some(true));
}

#[test]
fn real_major_syncs_are_valid() {
    assert_eq!(major_sync_at(&EXAMPLE_DATA[16..]), Some(Some(1)));
    assert_eq!(major_sync_at(&EXAMPLE_DATA[16..90]), None);
    assert_eq!(major_sync_at(EXAMPLE_DATA_FBB), Some(Some(2)));
    assert_eq!(major_sync_at(EXAMPLE_DATA_FBB_UNEXTRACTABLE), Some(Some(1)));
    for at in 4..46 {
        let mut damaged = EXAMPLE_DATA[16..].to_vec();
        damaged[at] ^= 0x04;
        if at < 30 + 2 {
            assert_ne!(major_sync_at(&damaged), Some(Some(1)), "byte {at}");
        }
    }
}

#[test]
fn a_real_stream_is_framed() {
    let mut f = Framer::default();
    f.push(EXAMPLE_DATA);
    assert_eq!(
        drain(&mut f),
        vec![
            Got::Au(info(16, 0, true), EXAMPLE_DATA[16..100].to_vec()),
            Got::Au(info(100, 1, false), EXAMPLE_DATA[100..120].to_vec()),
        ]
    );
    // The 16 bytes in front are shorter than an access unit can be, and not counted.
    assert_eq!(f.skipped_bytes(), 16);
    assert_eq!(f.pending(), 0);
    assert!(!f.estimated());
    assert_eq!(f.sync_errors(), 0);
}

#[test]
fn units_before_the_first_sync_are_recovered() {
    let mut data = vec![0x11u8; 5];
    let mut expect = Vec::new();
    for i in 0..4u64 {
        expect.push(Got::Skipped(info(data.len() as u64, i, false)));
        data.extend(minor(20 + 2 * i as usize, 2, i as u8));
    }
    let sync = major(60, 2, 3);
    expect.push(Got::Au(info(data.len() as u64, 4, true), sync.clone()));
    data.extend(&sync);
    let last = minor(30, 2, 9);
    expect.push(Got::Au(info(data.len() as u64, 5, false), last.clone()));
    data.extend(&last);
    let mut f = Framer::default();
    f.push(&data);
    assert_eq!(drain(&mut f), expect);
    assert_eq!(f.skipped_bytes(), 5);
    assert!(!f.estimated());
}

#[test]
fn cutting_the_input_makes_no_difference() {
    let mut data = vec![0x22u8; 3];
    for i in 0..40usize {
        if i % 9 == 5 {
            data.extend(major(50 + 2 * i, 1 + i % 3, i as u8));
        } else {
            let substreams = if i < 6 { 3 } else { 1 + (i - (i - 5) % 9) % 3 };
            data.extend(minor(16 + 2 * i, substreams, i as u8));
        }
    }
    let mut whole = Framer::default();
    whole.push(&data);
    let expect = drain(&mut whole);
    assert_eq!(expect.len(), 40);
    for step in [1usize, 2, 3, 7, 31, 100, 1000] {
        let mut f = Framer::default();
        let mut got = Vec::new();
        for chunk in data.chunks(step) {
            f.push(chunk);
            got.extend(drain(&mut f));
        }
        assert_eq!(got, expect, "pushes of {step}");
        assert_eq!(f.pending(), whole.pending());
    }
}

#[test]
fn damage_is_counted_and_framing_goes_on() {
    let mut data = major(60, 2, 1);
    let damaged_at = data.len();
    data.extend(minor(40, 2, 2));
    data.extend(minor(40, 2, 3));
    let next = data.len();
    data.extend(major(60, 2, 4));
    data[damaged_at] ^= 0x10;
    let mut f = Framer::default();
    f.push(&data);
    let got = drain(&mut f);
    // The damaged access unit's length still leads onto the chain: it keeps its ordinal.
    assert_eq!(
        got,
        vec![
            Got::Au(info(0, 0, true), data[..60].to_vec()),
            Got::Skipped(info(60, 1, false)),
            Got::Skipped(info(100, 2, false)),
            Got::Au(info(next as u64, 3, true), data[next..].to_vec()),
        ]
    );
    assert_eq!(f.sync_errors(), 1);
    assert!(f.estimated());
}

#[test]
fn bytes_that_lead_nowhere_are_estimated() {
    let mut data = major(60, 2, 1);
    data.extend(vec![0xFFu8; 101]);
    let next = data.len();
    data.extend(major(60, 2, 4));
    let mut f = Framer::default();
    f.push(&data);
    // 101 bytes at an average of 60 are two access units, to the nearest.
    assert_eq!(
        drain(&mut f),
        vec![
            Got::Au(info(0, 0, true), data[..60].to_vec()),
            Got::Au(info(next as u64, 3, true), data[next..].to_vec()),
        ]
    );
    assert_eq!(f.sync_errors(), 1);
    assert_eq!(f.skipped_bytes(), 101);
    assert!(f.estimated());
}

#[test]
fn a_damaged_first_unit_counts_as_a_sync_error() {
    let mut data = major(60, 2, 1);
    data.extend(minor(40, 2, 2));
    let next = data.len();
    data.extend(major(60, 2, 4));
    data[14] ^= 0x40; // its CRC no longer matches
    let mut f = Framer::default();
    f.push(&data);
    assert_eq!(
        drain(&mut f),
        vec![
            Got::Skipped(info(0, 0, false)),
            Got::Skipped(info(60, 1, false)),
            Got::Au(info(next as u64, 2, true), data[next..].to_vec()),
        ]
    );
    assert_eq!(f.sync_errors(), 1);
    assert!(f.estimated());
}

#[test]
fn old_bytes_are_let_go_without_a_sync() {
    let mut f = Framer::default();
    f.push(&vec![0u8; MAX_RETAINED]);
    assert!(drain(&mut f).is_empty());
    assert_eq!(f.pending(), MAX_RETAINED);
    f.push(&vec![0u8; 8]);
    assert!(drain(&mut f).is_empty());
    assert_eq!(f.pending(), 7);
    assert_eq!(f.skipped_bytes(), MAX_RETAINED as u64 + 1);
    assert!(f.estimated());
    f.push(&major(60, 1, 1));
    // 4194305 bytes at the assumed 1024 each, and a fragment of 7.
    assert_eq!(
        drain(&mut f),
        vec![Got::Au(info(MAX_RETAINED as u64 + 8, 4096, true), major(60, 1, 1))]
    );
}

#[test]
fn reset_restarts_the_count() {
    let mut f = Framer::default();
    f.push(&major(60, 2, 1));
    f.push(&minor(40, 2, 1));
    assert_eq!(drain(&mut f).len(), 2);
    f.push(&[1, 2, 3]);
    f.reset();
    assert_eq!(f.pending(), 0);
    f.push(&major(60, 2, 1));
    assert_eq!(drain(&mut f), vec![Got::Au(info(0, 0, true), major(60, 2, 1))]);
    assert!(f.has_room(1 << 20));
}

#[test]
fn an_invalid_length_is_damage() {
    let mut data = major(60, 1, 1);
    data.extend([0u8; 8]);
    let mut f = Framer::default();
    f.push(&data);
    assert_eq!(drain(&mut f).len(), 1);
    assert_eq!(f.sync_errors(), 1);
}

#[test]
fn whole_units_are_counted_from_zero_however_they_are_cut() {
    let mut data = Vec::new();
    let mut expect = Vec::new();
    for i in 0..30u64 {
        let at = data.len() as u64;
        let unit = if i == 7 || i == 20 {
            major(64, 2, i as u8)
        } else {
            minor(20 + 2 * i as usize, 2, i as u8)
        };
        data.extend(&unit);
        expect.push(if i < 7 {
            Got::Skipped(info(at, i, false))
        } else {
            Got::Au(info(at, i, i == 7 || i == 20), unit)
        });
    }
    for step in [1usize, 2, 9, 63, 64, 65, 5000] {
        let mut f = Framer::default();
        let mut got = Vec::new();
        for chunk in data.chunks(step) {
            f.push(chunk);
            got.extend(drain(&mut f));
        }
        assert_eq!(got, expect, "pushes of {step}");
        assert!(!f.estimated());
        assert_eq!((f.pending(), f.skipped_bytes(), f.sync_errors()), (0, 0, 0));
    }
}

#[test]
fn a_reset_framer_reports_what_a_new_one_does() {
    let mut data = minor(30, 3, 1);
    data.extend(minor(40, 3, 2));
    data.extend(major(60, 3, 3));
    data.extend(minor(50, 3, 4));
    // Another substream count and average length before the reset.
    let mut used = Framer::default();
    used.push(&major(400, 1, 9));
    used.push(&minor(300, 1, 9));
    assert_eq!(drain(&mut used).len(), 2);
    used.reset();
    let mut fresh = Framer::default();
    used.push(&data);
    fresh.push(&data);
    let expect = drain(&mut fresh);
    assert_eq!(expect.len(), 4);
    assert_eq!(drain(&mut used), expect);
    // Only the size of an estimated jump rests on what came before.
    used.reset();
    fresh.reset();
    let mut jump = vec![0xFFu8; 9000];
    jump.extend(major(60, 3, 3));
    used.push(&jump);
    fresh.push(&jump);
    let (a, b) = (drain(&mut used), drain(&mut fresh));
    assert!(used.estimated() && fresh.estimated());
    let (Got::Au(x, p), Got::Au(y, q)) = (&a[0], &b[0]) else {
        panic!("no access unit");
    };
    assert_eq!((x.offset, x.major_sync, p), (y.offset, y.major_sync, q));
    assert_ne!(x.ordinal, y.ordinal);
}

#[test]
fn the_first_unit_after_damage_is_a_checked_major_sync() {
    let mut data = major(60, 2, 1);
    data.extend(minor(40, 2, 2));
    data.extend(vec![0xFFu8; 33]);
    data.extend(minor(40, 2, 3));
    data.extend(minor(44, 2, 4));
    let sync = major(70, 2, 5);
    data.extend(&sync);
    let mut f = Framer::default();
    f.push(&data);
    let got = drain(&mut f);
    let first = got[2..].iter().find(|g| matches!(g, Got::Au(..))).unwrap();
    let Got::Au(info, bytes) = first else {
        panic!("no access unit");
    };
    assert!(info.major_sync);
    assert_eq!(bytes, &sync);
    assert_eq!(f.sync_errors(), 1);
}
