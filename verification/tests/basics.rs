use rusty_alloc::options::render_error;
use rusty_alloc::prim::windows::{clock_scale, ticks_to_ns};
use rusty_alloc::types::{BIN_FULL, INTPTR_SIZE, SEGMENT_SIZE, SMALL_SIZE_MAX};
use rusty_alloc::{version, MI_COMPAT_VERSION};

#[test]
fn version_is_v2_4_5_compat() {
    assert_eq!(version(), 20405);
    assert_eq!(MI_COMPAT_VERSION, 20405);
}

#[test]
fn constants_match_oracle_64bit() {
    assert_eq!(INTPTR_SIZE, 8);
    assert_eq!(SMALL_SIZE_MAX, 1024);
    assert_eq!(SEGMENT_SIZE, 32 * 1024 * 1024);
    assert_eq!(BIN_FULL, 74);
}

#[test]
fn renders_every_shape_without_a_formatter() {
    let mut b = [0u8; 32];
    assert_eq!(render_error(&mut b, 0), "rusty_alloc: error 0\n");
    assert_eq!(render_error(&mut b, 7), "rusty_alloc: error 7\n");
    assert_eq!(render_error(&mut b, 12345), "rusty_alloc: error 12345\n");
    assert_eq!(render_error(&mut b, -1), "rusty_alloc: error -1\n");
    assert_eq!(render_error(&mut b, i32::MAX), "rusty_alloc: error 2147483647\n");
    assert_eq!(render_error(&mut b, i32::MIN), "rusty_alloc: error -2147483648\n");
}

fn reference(count: u64, freq: u64) -> u64 {
    (u128::from(count) * 1_000_000_000 / u128::from(freq)) as u64
}

fn scale_for(freq: u64) -> u64 {
    if 1_000_000_000u64 % freq == 0 {
        1_000_000_000u64 / freq
    } else {
        0
    }
}

#[test]
fn exact_scale_matches_the_u128_reference() {
    for freq in [10_000_000u64, 1_000_000, 100_000, 1_000, 1] {
        assert_eq!(scale_for(freq), 1_000_000_000 / freq, "freq {freq}");
        assert_eq!(clock_scale(freq), scale_for(freq), "freq {freq}");
        for count in [0u64, 1, 7, 12_345, 1 << 20, 1 << 32, 86_400 * freq] {
            assert_eq!(
                ticks_to_ns(count, freq, scale_for(freq)),
                reference(count, freq),
                "freq {freq} count {count}"
            );
        }
    }
}

#[test]
fn inexact_frequency_falls_back_and_stays_correct() {
    let freq = 3_579_545u64;
    assert_eq!(scale_for(freq), 0, "3.579545 MHz must not get a scale");
    assert_eq!(clock_scale(freq), 0);
    for count in [0u64, 1, 3_579_545, 1 << 32] {
        assert_eq!(ticks_to_ns(count, freq, 0), reference(count, freq));
    }
}

#[test]
fn a_day_of_ticks_does_not_wrap() {
    let freq = 10_000_000u64;
    let day = 86_400 * freq;
    assert_eq!(ticks_to_ns(day, freq, scale_for(freq)), 86_400 * 1_000_000_000, "one day must convert exactly");
}
