use ffaudio2json::{render_amplitude, SampleBuffer, FLOAT_UNIT};

fn fixed(x: f64) -> i128 {
    (x * FLOAT_UNIT as f64) as i128
}

fn text(level: u128) -> String {
    String::from_utf8(render_amplitude(level, FLOAT_UNIT as u128, 6)).unwrap()
}

#[test]
fn test_sample_buffer_push() {
    let mut buffer = SampleBuffer::with_capacity(10, FLOAT_UNIT as u128);
    for _ in 0..2 {
        for _ in 0..10 {
            assert_eq!(buffer.push(fixed(0.5)), None);
        }

        let sample = buffer.push(fixed(0.6)).unwrap();
        assert_eq!(sample, fixed(0.5) as u128);
        assert_eq!(text(sample), "0.500000");

        let last = buffer.flush().unwrap();
        assert_eq!(last, fixed(0.6) as u128);
        assert_eq!(text(last), "0.600000");
    }
    assert_eq!(buffer.capacity(), 10);
}

#[test]
fn test_sample_buffer_extend() {
    let mut buffer = SampleBuffer::with_capacity(10, FLOAT_UNIT as u128);
    for _ in 0..2 {
        let ten: Vec<i128> = (0..10).map(|_| fixed(0.5)).collect();
        assert!(buffer.extend(&ten).is_empty());

        let out = buffer.extend(&vec![fixed(0.6)]);
        assert_eq!(out, vec![fixed(0.5) as u128]);

        assert_eq!(buffer.flush().unwrap(), fixed(0.6) as u128);
    }
    assert_eq!(buffer.capacity(), 10);
}

#[test]
fn test_sample_buffer_flush() {
    let mut buffer = SampleBuffer::with_capacity(10, FLOAT_UNIT as u128);
    assert!(buffer.flush().is_none());
    assert_eq!(buffer.push(fixed(0.5)), None);
    assert_eq!(buffer.flush(), Some(fixed(0.5) as u128));
    assert!(buffer.flush().is_none());
    assert_eq!(buffer.capacity(), 10);
}

#[test]
fn peak_is_the_largest_magnitude_not_the_mean() {
    let mut buffer = SampleBuffer::with_capacity(4, 32767);
    buffer.extend(&vec![100, -30000, 5, 7]);
    assert_eq!(buffer.flush(), Some(30000));
}

#[test]
fn peak_ignores_the_order_of_samples() {
    let samples = vec![12i128, -900, 450, 3, -2, 899];
    let mut reversed = samples.clone();
    reversed.reverse();
    let mut rotated = samples.clone();
    rotated.rotate_left(2);
    let mut results = Vec::new();
    for s in [samples, reversed, rotated] {
        let mut buffer = SampleBuffer::with_capacity(6, 1000);
        buffer.extend(&s);
        results.push(buffer.flush());
    }
    assert_eq!(results, vec![Some(900), Some(900), Some(900)]);
}

#[test]
fn peak_clamps_at_full_scale() {
    let mut buffer = SampleBuffer::with_capacity(2, 32767);
    buffer.extend(&vec![-32768, 10]);
    assert_eq!(buffer.flush(), Some(32767));
}

#[test]
fn extend_closes_every_full_bucket_and_keeps_the_rest() {
    let mut buffer = SampleBuffer::with_capacity(3, 100);
    buffer.push(1);
    let out = buffer.extend(&vec![5, 2, 9, 3, 4, 8, 7]);
    assert_eq!(out, vec![5, 9]);
    assert_eq!(buffer.len(), 2);
    assert_eq!(buffer.flush(), Some(8));
    assert!(buffer.is_empty());
}

#[test]
fn push_after_a_full_bucket_starts_the_next() {
    let mut buffer = SampleBuffer::with_capacity(2, 100);
    assert_eq!(buffer.push(-40), None);
    assert_eq!(buffer.push(20), None);
    assert_eq!(buffer.push(60), Some(40));
    assert_eq!(buffer.len(), 1);
    assert_eq!(buffer.flush(), Some(60));
}
