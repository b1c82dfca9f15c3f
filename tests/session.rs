use ffaudio2json::{
    bucket_capacity, estimated_total_samples, render_levels, reserve_array, reserved_width, Channel, Error, LaneOutput,
    Layout, SampleFormat, SampleKind, Session, FLOAT_UNIT,
};

const I16: SampleFormat = SampleFormat { kind: SampleKind::Signed, bits: 16 };
const F32: SampleFormat = SampleFormat { kind: SampleKind::Float, bits: 32 };

fn all_six() -> Vec<Channel> {
    Channel::all()
}

/// Collects each channel's values over a run.
fn gather(into: &mut Vec<(Channel, Vec<u128>)>, out: Vec<LaneOutput>) {
    for o in out {
        let slot = match into.iter_mut().find(|(c, _)| *c == o.channel) {
            Some(s) => s,
            None => {
                into.push((o.channel, Vec::new()));
                into.last_mut().unwrap()
            }
        };
        assert_eq!(o.first_index as usize, slot.1.len());
        for l in &o.levels {
            assert!(*l <= o.full);
        }
        slot.1.extend(o.levels);
    }
}

fn run_mono(positions: usize, capacity: usize, target: u32, channels: Vec<Channel>) -> Vec<(Channel, Vec<u128>)> {
    let mut s = Session::new(&channels, I16, Layout::Planar, 1, capacity, target).unwrap();
    let mut got = Vec::new();
    let plane: Vec<i64> = (0..positions).map(|i| ((i * 37) % 20000) as i64 - 10000).collect();
    for chunk in plane.chunks(1000) {
        gather(&mut got, s.feed_planar(&vec![chunk.to_vec()]));
    }
    gather(&mut got, s.finish());
    got
}

#[test]
fn mono_all_six_channels_reach_target() {
    let capacity = bucket_capacity(8000, 1, 8000, 8000, 800);
    assert_eq!(capacity, 10);
    let got = run_mono(8000, capacity, 800, all_six());
    assert_eq!(got.len(), 6);
    for (_, values) in &got {
        assert_eq!(values.len(), 800);
    }
    for (_, values) in &got[1..] {
        assert_eq!(values, &got[0].1);
    }
}

#[test]
fn capped_at_natural_resolution_leaves_no_spare_room() {
    let capacity = bucket_capacity(22932, 1, 1000, 1000, 50000);
    assert_eq!(capacity, 1);
    let estimated = estimated_total_samples(22932, 1, 1000, 1000);
    let got = run_mono(22932, capacity, 50000, vec![Channel::Mid]);
    assert_eq!(got[0].1.len(), 22932);

    let width = reserved_width(50000, estimated, 6);
    let (mut doc, offset) = reserve_array(Channel::Mid, width);
    doc.insert(0, b'{');
    let text = render_levels(&got[0].1, 0, 32767, 6);
    assert_eq!(text.len(), width);
    doc[1 + offset..1 + offset + text.len()].copy_from_slice(&text);
    doc.pop();
    doc.extend_from_slice(b",\n  \"duration\":22.932\n}");
    assert_eq!(doc.iter().filter(|b| **b == b' ').count(), 4);
}

#[test]
fn stereo_capped_at_natural_resolution_leaves_no_spare_room() {
    let capacity = bucket_capacity(22932, 1, 1000, 1000, 50000);
    let estimated = estimated_total_samples(22932, 1, 1000, 1000);
    let channels = vec![Channel::Left, Channel::Right];
    let mut s = Session::new(&channels, I16, Layout::Packed, 2, capacity, 50000).unwrap();
    let data: Vec<i64> = (0..22932 * 2).map(|i| (i % 300) as i64 - 150).collect();
    let mut got = Vec::new();
    gather(&mut got, s.feed_packed(&data));
    gather(&mut got, s.finish());
    let width = reserved_width(50000, estimated, 6);
    let mut doc = b"{".to_vec();
    for (c, values) in &got {
        assert_eq!(values.len(), 22932);
        let (mut part, offset) = reserve_array(*c, width);
        let text = render_levels(values, 0, 32767, 6);
        part[offset..offset + text.len()].copy_from_slice(&text);
        doc.extend(part);
    }
    doc.extend_from_slice(b"\n  \"duration\":22.932\n}");
    assert_eq!(doc.iter().filter(|b| **b == b' ').count(), 6);
}

#[test]
fn stereo_left_right_only_has_no_other_keys() {
    let channels = vec![Channel::Right, Channel::Left, Channel::Right];
    let mut s = Session::new(&channels, F32, Layout::Planar, 2, 4, 800).unwrap();
    assert_eq!(s.enabled_channels(), vec![Channel::Left, Channel::Right]);
    let planes = vec![vec![1i64, 2, 3, 4, 5], vec![-1i64, -2, -3, -4, -5]];
    let mut got = Vec::new();
    gather(&mut got, s.feed_planar(&planes));
    gather(&mut got, s.finish());
    let mut doc = b"{".to_vec();
    for (c, _) in &got {
        doc.extend(reserve_array(*c, 0).0);
    }
    let doc = String::from_utf8(doc).unwrap();
    assert!(doc.contains("\"left\""));
    assert!(doc.contains("\"right\""));
    for absent in ["\"mid\"", "\"side\"", "\"min\"", "\"max\""] {
        assert!(!doc.contains(absent));
    }
}

#[test]
fn empty_input_gives_empty_arrays() {
    let mut s = Session::new(&all_six(), I16, Layout::Planar, 2, 10, 800).unwrap();
    let out = s.finish();
    assert_eq!(out.len(), 6);
    for o in out {
        assert!(o.levels.is_empty());
        assert_eq!(o.first_index, 0);
    }
}

#[test]
fn empty_frame_changes_nothing() {
    let mut s = Session::new(&all_six(), I16, Layout::Packed, 2, 10, 800).unwrap();
    let out = s.feed_packed(&vec![]);
    assert!(out.iter().all(|o| o.levels.is_empty()));
    assert!(s.finish().iter().all(|o| o.levels.is_empty()));
}

#[test]
fn no_source_channels_needs_no_decoding() {
    let bogus = SampleFormat { kind: SampleKind::Signed, bits: 64 };
    let mut s = Session::new(&all_six(), bogus, Layout::Packed, 0, 10, 800).unwrap();
    let out = s.finish();
    assert!(out.iter().all(|o| o.levels.is_empty()));
}

#[test]
fn refuses_unsupported_formats() {
    let bogus = SampleFormat { kind: SampleKind::Signed, bits: 64 };
    assert_eq!(
        Session::new(&all_six(), bogus, Layout::Packed, 2, 10, 800).err(),
        Some(Error::UnsupportedFormat { format: bogus, layout: Layout::Packed, channels: 2 })
    );
    assert_eq!(
        Session::new(&all_six(), I16, Layout::Planar, 9, 10, 800).err(),
        Some(Error::UnsupportedFormat { format: I16, layout: Layout::Planar, channels: 9 })
    );
    assert!(Session::new(&all_six(), I16, Layout::Planar, 8, 10, 800).is_ok());
}

#[test]
fn derives_every_channel_from_stereo() {
    let mut s = Session::new(&all_six(), I16, Layout::Packed, 2, 1, 10).unwrap();
    let out = s.feed_packed(&vec![1000, -3000, 500, 200]);
    // The first position closes when the second arrives.
    let expect = [
        (Channel::Left, 1000u128, 32767u128),
        (Channel::Right, 3000, 32767),
        (Channel::Mid, 2000, 65534),
        (Channel::Side, 4000, 65534),
        (Channel::Min, 3000, 32767),
        (Channel::Max, 1000, 32767),
    ];
    for (o, (c, level, full)) in out.iter().zip(expect.iter()) {
        assert_eq!(o.channel, *c);
        assert_eq!(o.levels, vec![*level]);
        assert_eq!(o.full, *full);
    }
    let last = s.finish();
    let expect = [500u128, 200, 700, 300, 200, 500];
    for (o, level) in last.iter().zip(expect.iter()) {
        assert_eq!(o.levels, vec![*level]);
        assert_eq!(o.first_index, 1);
    }
}

#[test]
fn planar_and_packed_agree() {
    let planes = vec![vec![5i64, -7, 9, 100, -3], vec![2, 8, -9, 1, 0], vec![-4, 4, 6, -50, 7]];
    let mut packed = Vec::new();
    for j in 0..5 {
        for p in &planes {
            packed.push(p[j]);
        }
    }
    let mut a = Session::new(&all_six(), I16, Layout::Planar, 3, 2, 100).unwrap();
    let mut b = Session::new(&all_six(), I16, Layout::Packed, 3, 2, 100).unwrap();
    let mut ga = Vec::new();
    let mut gb = Vec::new();
    gather(&mut ga, a.feed_planar(&planes));
    gather(&mut ga, a.finish());
    gather(&mut gb, b.feed_packed(&packed));
    gather(&mut gb, b.finish());
    assert_eq!(ga, gb);
    let mid = &ga.iter().find(|(c, _)| *c == Channel::Mid).unwrap().1;
    // Sums per position: 3, 5, 6, 51, 4; buckets of two.
    assert_eq!(mid, &vec![5, 51, 4]);
}

#[test]
fn stops_at_target_with_equal_lengths() {
    let mut s = Session::new(&all_six(), F32, Layout::Packed, 2, 3, 4).unwrap();
    let data: Vec<i64> = (0..100).map(|i| (i as i64 - 50) * (FLOAT_UNIT as i64 / 64)).collect();
    let mut got = Vec::new();
    gather(&mut got, s.feed_packed(&data));
    assert!(s.stopped());
    gather(&mut got, s.finish());
    for (_, values) in &got {
        assert_eq!(values.len(), 4);
    }
}

#[test]
fn short_input_gives_fewer_values() {
    let got = run_mono(25, 10, 800, vec![Channel::Left, Channel::Max]);
    for (_, values) in &got {
        assert_eq!(values.len(), 3);
    }
}

#[test]
fn mono_side_repeats_the_source() {
    let mut s = Session::new(&vec![Channel::Side, Channel::Left], I16, Layout::Packed, 1, 2, 10).unwrap();
    let mut got = Vec::new();
    gather(&mut got, s.feed_packed(&vec![-20, 7, 3]));
    gather(&mut got, s.finish());
    assert_eq!(got, vec![(Channel::Left, vec![20, 3]), (Channel::Side, vec![20, 3])]);
}
