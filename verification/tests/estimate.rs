//! Estimates against double-precision arithmetic.

use truehd_atmos::estimate::estimate_aus;

fn reference(bytes: u64, framed_aus: u64, framed_bytes: u64) -> u64 {
    let average = if framed_aus == 0 {
        1024.0
    } else {
        framed_bytes as f64 / framed_aus as f64
    };
    (bytes as f64 / average).round() as u64
}

fn agree(bytes: u64, framed_aus: u64, framed_bytes: u64) {
    assert_eq!(
        estimate_aus(bytes, framed_aus, framed_bytes),
        reference(bytes, framed_aus, framed_bytes),
        "{bytes} bytes, {framed_bytes} in {framed_aus}"
    );
}

#[test]
fn without_history_units_are_taken_as_1024_bytes() {
    assert_eq!(estimate_aus(511, 0, 0), 0);
    assert_eq!(estimate_aus(512, 0, 0), 1);
    assert_eq!(estimate_aus(1536, 0, 0), 2);
    assert_eq!(estimate_aus(4194305, 0, 0), 4096);
}

#[test]
fn averages_are_rounded_as_doubles() {
    assert_eq!(estimate_aus(101, 1, 60), 2);
    assert_eq!(estimate_aus(90, 1, 60), 2);
    assert_eq!(estimate_aus(89, 1, 60), 1);
    assert_eq!(estimate_aus(1, 1, 60), 0);
}

#[test]
fn random_histories_agree_with_floating_point() {
    let mut state = 0x2545F4914F6CDD1Du64;
    let mut rand = move || {
        state ^= state << 13;
        state ^= state >> 7;
        state ^= state << 17;
        state
    };
    for _ in 0..100_000 {
        let aus = 1 + (rand() >> (8 + rand() % 55)) % (1 << 50);
        let bytes = 8 * aus + (rand() >> (rand() % 60 + 4)) % (aus * 8182 + 1);
        let drop = 1 + (rand() >> (4 + rand() % 60)) % (1 << 60);
        agree(drop, aus, bytes);
    }
}

#[test]
fn ties_agree_with_floating_point() {
    for aus in 1..60u64 {
        for per in 8..60u64 {
            let bytes = aus * per + aus / 2;
            for k in 0..20u64 {
                // Half-way between k and k + 1 access units, where that is a whole byte count.
                if ((2 * k + 1) * bytes) % (2 * aus) == 0 {
                    agree((2 * k + 1) * bytes / (2 * aus), aus, bytes);
                }
            }
        }
    }
}
