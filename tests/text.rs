use ffaudio2json::{
    bucket_capacity, estimated_total_samples, render_amplitude, render_levels, reserve_array, reserved_width, Accept,
    Channel, ChannelWriter, Channels, FfAudio2JsonBuilder, SampleFormat, SampleKind, DEFAULT_PRECISION, DEFAULT_SAMPLES,
};

fn amp(level: u128, full: u128, precision: usize) -> String {
    String::from_utf8(render_amplitude(level, full, precision)).unwrap()
}

#[test]
fn renders_fixed_decimals() {
    assert_eq!(amp(1, 2, 1), "0.5");
    assert_eq!(amp(1, 3, 6), "0.333333");
    assert_eq!(amp(2, 3, 6), "0.666667");
    assert_eq!(amp(7, 7, 2), "1.00");
    assert_eq!(amp(0, 32767, 6), "0.000000");
    assert_eq!(amp(16384, 32767, 6), "0.500015");
}

#[test]
fn renders_halves_to_even() {
    assert_eq!(amp(1, 8, 2), "0.12");
    assert_eq!(amp(3, 8, 2), "0.38");
    assert_eq!(amp(1, 2, 0), "0");
    assert_eq!(amp(3, 4, 0), "1");
    assert_eq!(amp(1, 4, 0), "0");
}

#[test]
fn renders_a_carry_through_nines() {
    assert_eq!(amp(9999, 10000, 3), "1.000");
    assert_eq!(amp(1995, 10000, 2), "0.20");
}

#[test]
fn renders_like_float_formatting() {
    for (level, full) in [(12345u128, 32767u128), (1, 255), (200, 255), (2147483647, 2147483647), (77, 100000)] {
        let expected = format!("{:.6}", level as f64 / full as f64);
        assert_eq!(amp(level, full, 6), expected);
    }
}

#[test]
fn separates_values_with_commas() {
    let first = String::from_utf8(render_levels(&vec![1, 2], 0, 4, 2)).unwrap();
    assert_eq!(first, "0.25,0.50");
    let later = String::from_utf8(render_levels(&vec![4], 2, 4, 2)).unwrap();
    assert_eq!(later, ",1.00");
    assert!(render_levels(&vec![], 0, 4, 2).is_empty());
}

#[test]
fn capacity_rounds_duration_over_target() {
    // 10 s at 44100 Hz, time base 1/1000: 441000 samples over 800 buckets.
    assert_eq!(bucket_capacity(10_000, 1, 1000, 44100, 800), 551);
    // 551.25 rounds down, 8000 / 800 is exact.
    assert_eq!(bucket_capacity(8000, 1, 8000, 8000, 800), 10);
    // 1000 / 400 = 2.5 rounds up.
    assert_eq!(bucket_capacity(1000, 1, 1, 1, 400), 3);
}

#[test]
fn capacity_is_one_past_natural_resolution() {
    assert_eq!(bucket_capacity(22932, 1, 1000, 1000, 50000), 1);
    assert_eq!(bucket_capacity(0, 1, 1000, 1000, 800), 1);
    assert_eq!(bucket_capacity(-5, 1, 1000, 1000, 800), 1);
    assert_eq!(bucket_capacity(100, 1, 0, 1000, 800), 1);
    assert_eq!(bucket_capacity(100, 1, 1, 1000, 0), 1);
}

#[test]
fn estimates_round_up() {
    assert_eq!(estimated_total_samples(22932, 1, 1000, 1000), 22932);
    assert_eq!(estimated_total_samples(1, 1, 3, 10), 4);
    assert_eq!(estimated_total_samples(0, 1, 3, 10), 0);
    assert_eq!(estimated_total_samples(10, 1, 0, 10), 0);
}

#[test]
fn reserved_width_fits_the_values() {
    assert_eq!(reserved_width(800, 1_000_000, 6), 800 * 9 - 1);
    assert_eq!(reserved_width(50000, 22932, 6), 22932 * 9 - 1);
    assert_eq!(reserved_width(800, 0, 6), 0);
    assert_eq!(reserved_width(3, 10, 0), 8);
}

#[test]
fn reserves_an_array_of_spaces() {
    let (bytes, offset) = reserve_array(Channel::Mid, 5);
    assert_eq!(String::from_utf8(bytes).unwrap(), "\n  \"mid\":[     ],");
    assert_eq!(offset, 10);
    let (bytes, offset) = reserve_array(Channel::Right, 0);
    assert_eq!(String::from_utf8(bytes).unwrap(), "\n  \"right\":[],");
    assert_eq!(offset, 12);
}

#[test]
fn writer_accepts_up_to_target() {
    let mut w = ChannelWriter::new();
    assert_eq!(w.accept(2), Accept::Write { first: true });
    assert_eq!(w.accept(2), Accept::Write { first: false });
    assert_eq!(w.accept(2), Accept::Stop);
    assert_eq!(w.written(), 3);
}

#[test]
fn builder_defaults() {
    let c = FfAudio2JsonBuilder::new().build().unwrap();
    assert_eq!(c.samples, DEFAULT_SAMPLES);
    assert_eq!(c.samples, 800);
    assert_eq!(c.precision, DEFAULT_PRECISION);
    assert_eq!(c.precision, 6);
    assert!(!c.db_scale);
    assert!(!c.no_header);
    assert_eq!(c.channels, vec![Channel::Left, Channel::Right]);
}

#[test]
fn builder_keeps_given_settings() {
    let c = FfAudio2JsonBuilder::new()
        .samples(100)
        .precision(2)
        .db_scale(true)
        .no_header(true)
        .channels(vec![Channel::Mid])
        .build()
        .unwrap();
    assert_eq!(c.samples, 100);
    assert_eq!(c.precision, 2);
    assert!(c.db_scale);
    assert!(c.no_header);
    assert_eq!(c.channels, vec![Channel::Mid]);
}

#[test]
fn builder_refuses_empty_channels() {
    let b = FfAudio2JsonBuilder::new().channels(vec![]);
    assert_eq!(b.validate(), Err("At least one channel must be specified".to_string()));
    assert!(b.build().is_err());
    assert_eq!(FfAudio2JsonBuilder::new().validate(), Ok(()));
}

#[test]
fn channel_names() {
    for c in Channel::all() {
        assert_eq!(Channel::from_name(&c.key()), Some(c));
    }
    assert_eq!(String::from_utf8(Channel::Side.key()).unwrap(), "side");
    assert_eq!(Channel::from_name(b"max"), Some(Channel::Max));
    assert_eq!(Channel::from_name(b"Left"), None);
    assert_eq!(Channel::from_name(b""), None);
}

#[test]
fn channel_slots_in_output_order() {
    let mut slots: Channels<u8> = Channels::new();
    slots.set(Channel::Max, 1);
    slots.set(Channel::Mid, 2);
    slots.set(Channel::Left, 3);
    assert_eq!(slots.iter_mut(), vec![Channel::Left, Channel::Mid, Channel::Max]);
    assert_eq!(slots.iter_mut_scalar(), vec![Channel::Left, Channel::Max]);
    assert_eq!(slots.iter_mut_composite(), vec![Channel::Mid]);
    assert!(slots.is_enabled(Channel::Mid));
    assert!(!slots.is_enabled(Channel::Side));
}

#[test]
fn supported_formats() {
    assert!(SampleFormat { kind: SampleKind::Signed, bits: 16 }.is_supported());
    assert!(SampleFormat { kind: SampleKind::Float, bits: 64 }.is_supported());
    assert!(!SampleFormat { kind: SampleKind::Signed, bits: 64 }.is_supported());
    assert_eq!(SampleFormat { kind: SampleKind::Unsigned, bits: 8 }.unit(), 255);
    assert_eq!(SampleFormat { kind: SampleKind::Signed, bits: 32 }.unit(), 2147483647);
}
