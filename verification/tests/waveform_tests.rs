use mediaviz::waveform::{isqrt_u64, response_curve, WaveformData, WaveformSlot};

/// Interleaves stereo frames of constant signed sample values.
fn frames(pairs: &[(i16, i16)]) -> Vec<u8> {
    let mut raw = Vec::new();
    for (l, r) in pairs {
        raw.extend_from_slice(&l.to_le_bytes());
        raw.extend_from_slice(&r.to_le_bytes());
    }
    raw
}

#[test]
fn eight_frames_two_bars() {
    // 8 stereo frames, 2 bars: each bar is computed from 4 frames.
    let raw = frames(&[(1000, 2000); 8]);
    let w = WaveformData::from_raw(&raw, 2).unwrap();
    assert_eq!(w.peaks.len(), 2);
    // constant signal: RMS is exact; the louder channel is the 95th-percentile
    // reference, so right = full scale and left = response of half scale
    for p in &w.peaks {
        assert_eq!(p.right, 1000);
        assert_eq!(p.left, 287); // floor(1000 * 0.5^(9/5))
    }
}

#[test]
fn negative_samples_have_same_magnitude() {
    let pos = WaveformData::from_raw(&frames(&[(1000, 2000); 8]), 2).unwrap();
    let neg = WaveformData::from_raw(&frames(&[(-1000, -2000); 8]), 2).unwrap();
    for (a, b) in pos.peaks.iter().zip(neg.peaks.iter()) {
        assert_eq!(a.left, b.left);
        assert_eq!(a.right, b.right);
    }
}

#[test]
fn empty_and_zero_bars_fail() {
    assert!(WaveformData::from_raw(&Vec::new(), 4).is_none());
    assert!(WaveformData::from_raw(&vec![1u8, 2, 3], 4).is_none()); // no whole frame
    assert!(WaveformData::from_raw(&frames(&[(1, 1); 4]), 0).is_none());
}

#[test]
fn silent_input_yields_zero_peaks() {
    let w = WaveformData::from_raw(&frames(&[(0, 0); 16]), 4).unwrap();
    assert_eq!(w.peaks.len(), 4);
    for p in &w.peaks {
        assert_eq!(p.left, 0);
        assert_eq!(p.right, 0);
    }
}

#[test]
fn trailing_partial_frame_is_ignored() {
    let mut raw = frames(&[(1000, 1000); 8]);
    raw.push(0x55); // half a sample left over
    raw.push(0x55);
    let w = WaveformData::from_raw(&raw, 2).unwrap();
    assert_eq!(w.peaks.len(), 2);
    for p in &w.peaks {
        assert_eq!(p.left, 1000);
        assert_eq!(p.right, 1000);
    }
}

#[test]
fn loud_transient_clips_instead_of_suppressing() {
    // 24 quiet bars and one loud transient bar: the reference is the quiet
    // level, so quiet bars stay at full scale and the transient clamps
    let mut pairs = vec![(100i16, 100i16); 96]; // 24 bars of 4 frames
    pairs.extend_from_slice(&[(10000, 10000); 4]); // 1 loud bar
    let w = WaveformData::from_raw(&frames(&pairs), 25).unwrap();
    assert_eq!(w.peaks.len(), 25);
    for p in &w.peaks {
        assert_eq!(p.left, 1000);
        assert_eq!(p.right, 1000);
    }
}

#[test]
fn non_constant_bucket_uses_rms() {
    // left alternates 0 and 1000: mean square 500000, RMS floor 707
    let raw = frames(&[(0, 2000), (1000, 2000), (0, 2000), (1000, 2000)]);
    let w = WaveformData::from_raw(&raw, 1).unwrap();
    assert_eq!(w.peaks.len(), 1);
    // pool sorted: [707, 2000], index min(1, 1) = 1, reference 2000
    // left: 707 * 1000 / 2000 = 353, response(353) = floor(1000 * 0.353^1.8)
    assert_eq!(w.peaks[0].right, 1000);
    assert_eq!(w.peaks[0].left, response_curve(353));
}

#[test]
fn integer_square_root() {
    assert_eq!(isqrt_u64(0), 0);
    assert_eq!(isqrt_u64(1), 1);
    assert_eq!(isqrt_u64(3), 1);
    assert_eq!(isqrt_u64(4), 2);
    assert_eq!(isqrt_u64(500_000), 707);
    assert_eq!(isqrt_u64(0x4000_0000), 32768);
}

#[test]
fn response_curve_values() {
    assert_eq!(response_curve(0), 0);
    assert_eq!(response_curve(1000), 1000);
    assert_eq!(response_curve(500), 287); // floor(1000 * 0.5^(9/5))
    // the curve is monotone and expands the low end less than linear
    assert!(response_curve(100) < 100);
    assert!(response_curve(999) <= 999);
}

#[test]
fn bars_for_width_division() {
    assert_eq!(WaveformData::bars_for_width(100, 2, 2), 25);
    assert_eq!(WaveformData::bars_for_width(7, 2, 2), 1);
    assert_eq!(WaveformData::bars_for_width(100, 0, 0), 0);
    assert_eq!(WaveformData::bars_for_width(100, 2, -2), 0);
    assert_eq!(WaveformData::bars_for_width(-5, 2, 2), 0);
}

#[test]
fn stale_waveform_delivery_is_discarded() {
    let w = WaveformData::from_raw(&frames(&[(1000, 1000); 8]), 2).unwrap();
    let mut slot = WaveformSlot::new(b"track-a".to_vec());
    // the selection moves on before the extraction lands
    slot.select(b"track-b".to_vec());
    assert!(!slot.deliver(&b"track-a".to_vec(), w));
    assert!(!slot.has_series());
}

#[test]
fn matching_waveform_delivery_is_applied() {
    let w = WaveformData::from_raw(&frames(&[(1000, 1000); 8]), 2).unwrap();
    let mut slot = WaveformSlot::new(b"track-a".to_vec());
    assert!(slot.deliver(&b"track-a".to_vec(), w));
    assert!(slot.has_series());
    // a track change drops the old series
    slot.select(b"track-c".to_vec());
    assert!(!slot.has_series());
}
