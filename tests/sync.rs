use airsense::frame::{calculate_checksum, parse_frame, SensorData};
use airsense::sync::{FrameSync, SyncEvent};

fn frame(eco2: u16, pm10: u16, temp: u8) -> Vec<u8> {
    let e = eco2.to_be_bytes();
    let p = pm10.to_be_bytes();
    let mut data = vec![
        0x3C, 0x02, e[0], e[1], 0x00, 0x05, 0x00, 0x0A, 0x00, 0x14, p[0], p[1], temp, 5, 50, 2,
    ];
    let checksum = calculate_checksum(&data);
    data.push(checksum);
    data
}

fn decoded(f: &[u8]) -> SyncEvent {
    SyncEvent::Reading(parse_frame(f).unwrap())
}

fn reading(e: &SyncEvent) -> SensorData {
    match e {
        SyncEvent::Reading(d) => *d,
        SyncEvent::ChecksumMismatch { .. } => panic!("expected a reading, got {:?}", e),
    }
}

#[test]
fn whole_frame_yields_one_reading() {
    let f = frame(400, 30, 25);
    let mut s = FrameSync::new();
    let events = s.feed(&f);
    assert_eq!(events.len(), 1);
    let out = vec![reading(&events[0])];
    assert_eq!(out[0].eco2, 400);
    assert_eq!(out[0].ech2o, 5);
    assert_eq!(out[0].tvoc, 10);
    assert_eq!(out[0].pm2_5, 20);
    assert_eq!(out[0].pm10, 30);
    assert_eq!(out[0].temp_int, 25);
    assert_eq!(out[0].temp_tenths, 5);
    assert_eq!(out[0].hum_int, 50);
    assert_eq!(out[0].hum_tenths, 2);
    assert!(s.pending().is_empty());
}

#[test]
fn frame_split_in_two_chunks_equals_whole() {
    let f = frame(400, 30, 25);
    let mut whole = FrameSync::new();
    let expected = whole.feed(&f);

    let mut s = FrameSync::new();
    let first = s.feed(&f[..10]);
    assert!(first.is_empty());
    assert_eq!(s.pending(), &f[..10]);
    let second = s.feed(&f[10..]);
    assert_eq!(second.len(), 1);
    assert_eq!(second, expected);
    assert!(s.pending().is_empty());
}

#[test]
fn frame_fed_byte_by_byte() {
    let f = frame(1234, 56, 21);
    let mut s = FrameSync::new();
    let mut all = Vec::new();
    for b in &f {
        all.extend(s.feed(&[*b]));
    }
    assert_eq!(all, vec![decoded(&f)]);
    assert!(s.pending().is_empty());
}

#[test]
fn bad_checksum_yields_no_reading() {
    let mut f = frame(400, 30, 25);
    let good = f[16];
    f[16] = f[16].wrapping_add(1);
    let mut s = FrameSync::new();
    let events = s.feed(&f);
    assert_eq!(events, vec![SyncEvent::ChecksumMismatch { expected: good, actual: good.wrapping_add(1) }]);
    // the remaining sixteen bytes hold no header byte and are dropped
    assert!(s.pending().is_empty());
}

#[test]
fn garbage_around_two_frames() {
    let f1 = frame(400, 30, 25);
    let f2 = frame(800, 60, 19);
    let mut stream = vec![0x00, 0x11, 0x22, 0x3C, 0x99, 0xFF];
    stream.extend_from_slice(&f1);
    stream.extend_from_slice(&[0x3C, 0x3C, 0x01, 0x55, 0x02]);
    stream.extend_from_slice(&f2);
    stream.extend_from_slice(&[0x10, 0x20]);
    let mut s = FrameSync::new();
    let out = s.feed(&stream);
    assert_eq!(out.len(), 2);
    assert_eq!(out[0], decoded(&f1));
    assert_eq!(out[1], decoded(&f2));
    assert_eq!(reading(&out[0]).eco2, 400);
    assert_eq!(reading(&out[1]).eco2, 800);
    assert_eq!(s.pending(), &[0x10, 0x20]);
}

#[test]
fn buffer_without_header_is_discarded() {
    let garbage: Vec<u8> = (0x40u8..0x68).collect();
    assert!(!garbage.contains(&0x3C));
    let mut s = FrameSync::new();
    assert!(s.feed(&garbage).is_empty());
    assert!(s.pending().is_empty());
}

#[test]
fn short_buffer_without_header_waits() {
    // fewer bytes than a frame: the pass does not run at all
    let mut s = FrameSync::new();
    assert!(s.feed(&[1, 2, 3, 4, 5]).is_empty());
    assert_eq!(s.pending(), &[1, 2, 3, 4, 5]);
}

#[test]
fn empty_feeds_change_nothing() {
    let f = frame(400, 30, 25);
    let mut s = FrameSync::new();
    assert_eq!(s.feed(&f).len(), 1);
    assert!(s.feed(&f[..12]).is_empty());
    for _ in 0..5 {
        assert!(s.feed(&[]).is_empty());
        assert_eq!(s.pending(), &f[..12]);
    }
    let out = s.feed(&f[12..]);
    assert_eq!(out, vec![decoded(&f)]);
}

#[test]
fn false_first_header_costs_one_byte() {
    let f = frame(400, 30, 25);
    let mut stream = vec![0x3C];
    stream.extend_from_slice(&f);
    let mut s = FrameSync::new();
    let out = s.feed(&stream);
    assert_eq!(out, vec![decoded(&f)]);
    assert!(s.pending().is_empty());
}

#[test]
fn resync_after_bad_checksum_finds_overlapping_frame() {
    let f = frame(400, 30, 25);
    let mut stream = vec![0x3C, 0x02];
    stream.extend_from_slice(&f);
    // the candidate at the first byte fails its checksum
    assert!(parse_frame(&stream).is_none());
    let expected = calculate_checksum(&stream[..16]);
    let mut s = FrameSync::new();
    let out = s.feed(&stream);
    assert_eq!(
        out,
        vec![SyncEvent::ChecksumMismatch { expected, actual: stream[16] }, decoded(&f)]
    );
    assert!(s.pending().is_empty());
}

#[test]
fn incomplete_frame_start_is_kept() {
    let f = frame(400, 30, 25);
    let mut stream = vec![0xAB; 20];
    stream.extend_from_slice(&f[..5]);
    let mut s = FrameSync::new();
    assert!(s.feed(&stream).is_empty());
    assert_eq!(s.pending(), &f[..5]);
    assert_eq!(s.feed(&f[5..]), vec![decoded(&f)]);
}
