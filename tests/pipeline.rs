use beatbeatrebellion::balance::balance_lanes;
use beatbeatrebellion::bands::band_energies;
use beatbeatrebellion::config::{Config, ConfigError};
use beatbeatrebellion::note::{Note, NoteKind};
use beatbeatrebellion::onset::{classify_onset, detect_onsets, onset_step, OnsetState};
use beatbeatrebellion::pipeline::{beatmap_from_spectra, build_beatmap, AnalysisError};
use beatbeatrebellion::postprocess::post_process;
use beatbeatrebellion::signal::{frame_offsets, mono_reduce, window_abs_sum, InputError};

const RATE: u32 = 44100;

fn frames(len: usize) -> usize {
    if len < 512 { 0 } else { (len - 512) / 256 + 1 }
}

/// A bass tone of the given amplitude in micro-units between two sample positions.
fn tone(len: usize, from: usize, to: usize, amp: f64) -> Vec<i32> {
    (0..len)
        .map(|i| {
            if i >= from && i < to {
                (amp * 1_000_000.0 * (2.0 * std::f64::consts::PI * 60.0 * i as f64 / RATE as f64).sin()).round() as i32
            } else {
                0
            }
        })
        .collect()
}

/// Bass energy of each frame as a quarter of its summed magnitude, the scale
/// of a transform's bin magnitudes; other bands silent.
fn transient_energies(mono: &Vec<i32>) -> Vec<[u64; 4]> {
    (0..frames(mono.len()))
        .map(|k| [window_abs_sum(mono, k * 256, 512) / 4, 0, 0, 0])
        .collect()
}

/// Bass energy of each frame as its mean absolute amplitude.
fn mean_energies(mono: &Vec<i32>) -> Vec<[u64; 4]> {
    (0..frames(mono.len()))
        .map(|k| [window_abs_sum(mono, k * 256, 512) / 512, 0, 0, 0])
        .collect()
}

fn note(ts: u64, lane: usize, energy: u64) -> Note {
    Note { timestamp: ts, lane, note_type: NoteKind::Tap, duration: 0, energy }
}

#[test]
fn defaults_are_valid() {
    let c = Config::defaults();
    assert_eq!(c.validate(), Ok(()));
    assert_eq!(c.frame_len, 512);
    assert_eq!(c.hop_len, 256);
    assert_eq!(c.band_high_hz, [100, 300, 800, 2000]);
}

#[test]
fn config_errors() {
    let mut c = Config::defaults();
    c.hop_len = 512;
    assert_eq!(c.validate(), Err(ConfigError::BadFraming));
    let mut c = Config::defaults();
    c.band_low_hz[2] = 900;
    assert_eq!(c.validate(), Err(ConfigError::BadBand));
    let mut c = Config::defaults();
    c.band_high_hz[3] = 20001;
    assert_eq!(c.validate(), Err(ConfigError::BadBand));
    let mut c = Config::defaults();
    c.min_hold = 2_000_000;
    assert_eq!(c.validate(), Err(ConfigError::BadParameter));
    let mut c = Config::defaults();
    c.min_hold = 0;
    assert_eq!(c.validate(), Err(ConfigError::BadParameter));
    let mut c = Config::defaults();
    c.cluster_pad = 0;
    assert_eq!(c.validate(), Err(ConfigError::BadParameter));
    let mut c = Config::defaults();
    c.max_cluster = 0;
    assert_eq!(c.validate(), Err(ConfigError::BadParameter));
}

#[test]
fn stereo_is_averaged_and_odd_tail_dropped() {
    let s = vec![2, 4, -3, 0, 10, -11, 7];
    assert_eq!(mono_reduce(&s, 2), Ok(vec![3, -2, -1]));
    assert_eq!(mono_reduce(&s, 1), Ok(s.clone()));
    assert_eq!(mono_reduce(&vec![i32::MAX, i32::MAX, i32::MIN, i32::MIN], 2), Ok(vec![i32::MAX, i32::MIN]));
}

#[test]
fn channel_errors() {
    assert_eq!(mono_reduce(&vec![1, 2], 0), Err(InputError::ZeroChannels));
    // Counts other than two pass through unchanged.
    assert_eq!(mono_reduce(&vec![1, 2, 3], 3), Ok(vec![1, 2, 3]));
    assert_eq!(mono_reduce(&vec![1, 2, 3, 4, 5], 4), Ok(vec![1, 2, 3, 4, 5]));
}

#[test]
fn partial_frames_are_dropped() {
    assert_eq!(frame_offsets(1024, 512, 256), vec![0, 256, 512]);
    assert_eq!(frame_offsets(1279, 512, 256), vec![0, 256, 512]);
    assert_eq!(frame_offsets(1280, 512, 256), vec![0, 256, 512, 768]);
    assert_eq!(frame_offsets(511, 512, 256), Vec::<usize>::new());
}

#[test]
fn band_energies_sum_half_open_bands() {
    let c = Config::defaults();
    // 20 Hz and 99.999 Hz are bass, 100 Hz is low-mid, 2000 Hz and above are ignored.
    let bins = vec![(20_000u64, 5u32), (99_999, 7), (100_000, 11), (450_000, 13), (1_999_999, 17), (2_000_000, 19), (19_000, 23)];
    assert_eq!(band_energies(&bins, &c), [12, 11, 13, 17]);
    assert_eq!(band_energies(&vec![(50_000, 0), (500_000, 0)], &c), [0, 0, 0, 0]);
}

#[test]
fn sustained_signal_is_a_clamped_hold() {
    let c = Config::defaults();
    let mono = vec![800_000i32; 44100];
    // Mean amplitude 0.8 against an onset energy of 1.0: the share 0.6 is met
    // for all 8 windows, 8 hops = 46439 us, clamped up to 0.3 s.
    assert_eq!(classify_onset(&mono, 0, 1_000_000, &c, RATE), (NoteKind::Hold, 300_000));
    // Against 2.0 the share 1.2 is never met.
    assert_eq!(classify_onset(&mono, 0, 2_000_000, &c, RATE), (NoteKind::Tap, 0));
}

#[test]
fn hold_duration_follows_the_run() {
    let mut c = Config::defaults();
    c.lookahead = 200;
    c.min_hold = 1;
    let mono = vec![500_000i32; 44100];
    // 170 full windows fit after the start (170 * 256 + 512 <= 44100), 170 hops = 986848 us.
    assert_eq!(classify_onset(&mono, 0, 500_000, &c, RATE), (NoteKind::Hold, 986_848));
}

#[test]
fn a_dip_ends_the_sustain_run() {
    let c = Config::defaults();
    let mut mono = vec![800_000i32; 44100];
    for x in mono.iter_mut().skip(256 * 3).take(512) {
        *x = 0;
    }
    assert_eq!(classify_onset(&mono, 0, 1_000_000, &c, RATE), (NoteKind::Tap, 0));
}

#[test]
fn onset_step_fires_and_updates_state() {
    let c = Config::defaults();
    let mono = vec![0i32; 2048];
    let mut out = Vec::new();
    let s0 = OnsetState::new();
    // Band 0 and 2 fire; band 1 rises too little; band 3 is below the least energy.
    let s1 = onset_step(&s0, &[500_000, 100_000, 900_000, 250_000], 0, &mono, RATE, &c, &mut out);
    assert_eq!(out.len(), 2);
    assert_eq!(out[0], note(0, 0, 500_000));
    assert_eq!(out[1], note(0, 2, 900_000));
    assert_eq!(s1.prev, [500_000, 100_000, 900_000, 250_000]);
    assert_eq!(s1.last, [Some(0), None, Some(0), None]);
    // One hop later band 0 fires again but is within the lane gap.
    let s2 = onset_step(&s1, &[1_500_000, 100_000, 900_000, 250_000], 256, &mono, RATE, &c, &mut out);
    assert_eq!(out.len(), 2);
    assert_eq!(s2.last, [Some(0), None, Some(0), None]);
}

#[test]
fn silence_gives_no_notes() {
    let c = Config::defaults();
    let mono = vec![0i32; 44100 * 2];
    let n = frames(mono.len());
    let zero_bins: Vec<(u64, u32)> = (0..100).map(|i| (i * 86_132, 0)).collect();
    let spectra = vec![zero_bins; n];
    assert_eq!(beatmap_from_spectra(&mono, &spectra, RATE, &c), Ok(vec![]));
    assert_eq!(build_beatmap(&mono, &mean_energies(&mono), RATE, &c), vec![]);
}

#[test]
fn single_burst_is_one_tap_in_lane_zero() {
    let c = Config::defaults();
    let mono = tone(22050 + 2205 + 88200, 22050, 22050 + 2205, 0.9);
    let energies = transient_energies(&mono);
    let detected = detect_onsets(&mono, &energies, RATE, &c);
    let processed = post_process(&detected, &c);
    assert_eq!(processed.len(), 1);
    assert_eq!(processed[0].lane, 0);
    assert_eq!(processed[0].note_type, NoteKind::Tap);
    assert_eq!(processed[0].duration, 0);
    // The first frame that holds part of the burst starts at sample 21760.
    assert_eq!(processed[0].timestamp, 493_424);
    assert!(500_000 - processed[0].timestamp <= 512 * 1_000_000 / 44100);
}

#[test]
fn lone_note_is_thinned_by_balancing() {
    // With one note in all, the largest lane count is 1 and the target 0.
    let c = Config::defaults();
    let mono = tone(22050 + 2205 + 88200, 22050, 22050 + 2205, 0.9);
    assert_eq!(build_beatmap(&mono, &transient_energies(&mono), RATE, &c), vec![]);
}

#[test]
fn sustained_tone_is_one_hold() {
    let c = Config::defaults();
    let mono = tone(44100 + 44100, 0, 44100, 0.8);
    let energies = mean_energies(&mono);
    let processed = post_process(&detect_onsets(&mono, &energies, RATE, &c), &c);
    assert_eq!(processed.len(), 1);
    assert_eq!(processed[0].lane, 0);
    assert_eq!(processed[0].timestamp, 0);
    assert_eq!(processed[0].note_type, NoteKind::Hold);
    assert_eq!(processed[0].duration, 300_000);
}

#[test]
fn close_onsets_keep_the_first() {
    let c = Config::defaults();
    let mono = vec![0i32; 44100];
    let mut energies = vec![[0u64; 4]; frames(mono.len())];
    energies[86][0] = 5_000_000;
    energies[95][0] = 5_000_000; // 9 hops = 52 ms later
    let detected = detect_onsets(&mono, &energies, RATE, &c);
    assert_eq!(detected, vec![note(86 * 256 * 1_000_000 / 44100, 0, 5_000_000)]);
    energies[95][0] = 0;
    energies[104][0] = 5_000_000; // 18 hops = 104 ms later
    assert_eq!(detect_onsets(&mono, &energies, RATE, &c).len(), 2);
}

#[test]
fn same_lane_cluster_becomes_one_hold() {
    let c = Config::defaults();
    let s = vec![note(0, 1, 7), note(50_000, 1, 9), note(100_000, 1, 3), note(400_000, 1, 4)];
    let r = post_process(&s, &c);
    assert_eq!(
        r,
        vec![
            Note { timestamp: 0, lane: 1, note_type: NoteKind::Hold, duration: 200_000, energy: 7 },
            note(400_000, 1, 4),
        ]
    );
}

#[test]
fn long_cluster_is_capped() {
    let c = Config::defaults();
    let s: Vec<Note> = (0..40).map(|i| note(i * 100_000, 2, 1)).collect();
    let r = post_process(&s, &c);
    assert_eq!(r, vec![Note { timestamp: 0, lane: 2, note_type: NoteKind::Hold, duration: 3_000_000, energy: 1 }]);
}

#[test]
fn global_gap_drops_close_notes_of_any_lane() {
    let c = Config::defaults();
    let s = vec![note(0, 0, 1), note(10_000, 1, 1), note(29_999, 2, 1), note(30_000, 3, 1), note(55_000, 0, 1)];
    let r = post_process(&s, &c);
    assert_eq!(r, vec![note(0, 0, 1), note(30_000, 3, 1)]);
    for w in r.windows(2) {
        assert!(w[1].timestamp - w[0].timestamp >= c.min_global_gap);
    }
}

#[test]
fn balancing_keeps_the_strongest_of_busy_lanes() {
    let c = Config::defaults();
    let s = vec![
        note(0, 0, 5),
        note(100_000, 0, 9),
        note(200_000, 1, 1),
        note(300_000, 0, 7),
        note(400_000, 0, 9),
    ];
    // Lane 0 has 4 notes, target 2: the two of energy 9 stay; lane 1 keeps its one.
    let r = balance_lanes(&s, &c);
    assert_eq!(r, vec![note(100_000, 0, 9), note(200_000, 1, 1), note(400_000, 0, 9)]);
}

#[test]
fn balancing_prefers_earlier_among_equal_energy() {
    let c = Config::defaults();
    let s = vec![note(0, 3, 4), note(100_000, 3, 4), note(200_000, 3, 4), note(300_000, 3, 4), note(400_000, 3, 4)];
    let r = balance_lanes(&s, &c);
    assert_eq!(r, vec![note(0, 3, 4), note(100_000, 3, 4)]);
}

#[test]
fn pipeline_output_is_sorted_spaced_and_in_range() {
    let c = Config::defaults();
    let mono = vec![0i32; 44100 * 2];
    let n = frames(mono.len());
    let mut energies = vec![[0u64; 4]; n];
    for k in (0..n).step_by(7) {
        energies[k] = [3_000_000, (k as u64 % 3) * 2_000_000, 1_000_000 * (k as u64 % 2), 800_000];
    }
    let r = build_beatmap(&mono, &energies, RATE, &c);
    assert!(!r.is_empty());
    for w in r.windows(2) {
        assert!(w[0].timestamp <= w[1].timestamp);
        assert!(w[1].timestamp - w[0].timestamp >= c.min_global_gap);
    }
    for x in &r {
        assert!(x.lane < 4);
        if x.note_type == NoteKind::Tap {
            assert_eq!(x.duration, 0);
        }
    }
    assert_eq!(build_beatmap(&mono, &energies, RATE, &c), r);
}

#[test]
fn analysis_errors() {
    let c = Config::defaults();
    let mono = vec![0i32; 1024];
    let spectra = vec![vec![(50_000u64, 1u32)]; 3];
    let mut bad = Config::defaults();
    bad.hop_len = 0;
    assert_eq!(beatmap_from_spectra(&mono, &spectra, RATE, &bad), Err(AnalysisError::Config(ConfigError::BadFraming)));
    assert_eq!(beatmap_from_spectra(&mono, &spectra, 0, &c), Err(AnalysisError::Input(InputError::ZeroSampleRate)));
    assert_eq!(beatmap_from_spectra(&vec![], &vec![], RATE, &c), Err(AnalysisError::Input(InputError::BadLength)));
    assert_eq!(beatmap_from_spectra(&mono, &spectra[..2].to_vec(), RATE, &c), Err(AnalysisError::FrameMismatch));
    assert_eq!(beatmap_from_spectra(&mono, &spectra, RATE, &c), Ok(vec![]));
}

#[test]
fn labels_round_trip() {
    assert_eq!(NoteKind::Tap.label(), "single");
    assert_eq!(NoteKind::Hold.label(), "hold");
    for k in [NoteKind::Tap, NoteKind::Hold] {
        assert_eq!(NoteKind::from_label(&k.label()), Some(k));
    }
    assert_eq!(NoteKind::from_label("Hold"), None);
    assert_eq!(NoteKind::from_label(""), None);
}

#[test]
fn balancing_resorts_survivors_by_time() {
    let c = Config::defaults();
    let s = vec![note(5_000_000, 0, 2), note(1_000_000, 1, 1), note(6_000_000, 0, 1)];
    // Lane 0 has 2 notes, target 1: its energy-2 note stays; lane 1 keeps its one.
    assert_eq!(balance_lanes(&s, &c), vec![note(1_000_000, 1, 1), note(5_000_000, 0, 2)]);
}

#[test]
fn balancing_keeps_input_order_among_equal_times() {
    let c = Config::defaults();
    let s = vec![
        note(300_000, 2, 5),
        note(100_000, 1, 7),
        note(100_000, 0, 6),
        note(100_000, 3, 8),
        note(0, 2, 9),
    ];
    // Largest lane count 2, target 1: lane 2 keeps its energy-9 note.
    assert_eq!(
        balance_lanes(&s, &c),
        vec![note(0, 2, 9), note(100_000, 1, 7), note(100_000, 0, 6), note(100_000, 3, 8)]
    );
}

#[test]
fn post_processing_sorts_its_input_first() {
    let c = Config::defaults();
    let s = vec![note(100_000, 1, 9), note(0, 1, 7), note(500_000, 2, 3), note(50_000, 1, 4)];
    // Sorted: lane 1 at 0, 50 ms and 100 ms form one cluster; lane 2 stays a tap.
    let r = post_process(&s, &c);
    assert_eq!(
        r,
        vec![
            Note { timestamp: 0, lane: 1, note_type: NoteKind::Hold, duration: 200_000, energy: 7 },
            note(500_000, 2, 3),
        ]
    );
}
