use vstd::prelude::*;

verus! {

/// Largest mono signal length, in samples, that the pipeline accepts; it keeps
/// every timestamp in microseconds well inside `u64`.
pub const MAX_SAMPLES: usize = 4294967295;

/// Largest value of a threshold, ratio or time parameter of the configuration.
pub const MAX_PARAM: u64 = 4294967295;

/// Largest analysis frame length, in samples.
pub const MAX_FRAME_LEN: usize = 1048576;

/// Lower edge of the analysis range, in Hz.
pub const ANALYSIS_LOW_HZ: u64 = 20;

/// Upper edge of the analysis range, in Hz.
pub const ANALYSIS_HIGH_HZ: u64 = 20000;

/// The tunable parameters of the pipeline.
///
/// Energies and amplitudes share one fixed-point scale in which 1.0 is
/// 1_000_000. Ratios are in thousandths. Times are in microseconds.
#[derive(Clone, Copy, Debug)]
pub struct Config {
    /// Analysis frame length in samples.
    pub frame_len: usize,
    /// Hop between frame starts in samples.
    pub hop_len: usize,
    /// Inclusive lower edge of each band, in Hz; band `b` feeds lane `b`.
    pub band_low_hz: [u64; 4],
    /// Exclusive upper edge of each band, in Hz.
    pub band_high_hz: [u64; 4],
    /// Multiplier of the previous energy in the adaptive threshold, in thousandths.
    pub thresh_ratio: u64,
    /// Constant floor of the adaptive threshold.
    pub thresh_floor: u64,
    /// Least rise of a band's energy over the previous frame for an onset.
    pub min_increase: u64,
    /// Least band energy for an onset.
    pub min_absolute: u64,
    /// Least time between two detected onsets of one lane.
    pub min_note_gap: u64,
    /// Number of hop-spaced windows that the classifier looks ahead.
    pub lookahead: usize,
    /// Share of the onset energy that a window's mean amplitude must reach to
    /// count as sustained, in thousandths.
    pub sustain_ratio: u64,
    /// Least duration of a classified hold note.
    pub min_hold: u64,
    /// Largest duration of a classified hold note.
    pub max_hold: u64,
    /// Largest time between consecutive notes of one cluster.
    pub cluster_window: u64,
    /// Time added after the last note of a cluster.
    pub cluster_pad: u64,
    /// Largest duration of a hold note made from a cluster.
    pub max_cluster: u64,
    /// Least time between any two adjacent notes of the output.
    pub min_global_gap: u64,
}

/// Why a configuration is refused.
#[derive(PartialEq, Eq, Structural, Clone, Copy, Debug)]
pub enum ConfigError {
    /// The hop is zero or not shorter than the frame, or the frame is too long.
    BadFraming,
    /// A band is empty or leaves the analysis range.
    BadBand,
    /// A threshold, ratio or time parameter is out of range.
    BadParameter,
}

pub open spec fn framing_ok(c: Config) -> bool {
    0 < c.hop_len < c.frame_len <= MAX_FRAME_LEN
}

pub open spec fn band_ok(c: Config, b: int) -> bool {
    ANALYSIS_LOW_HZ <= c.band_low_hz@[b] < c.band_high_hz@[b] <= ANALYSIS_HIGH_HZ
}

pub open spec fn bands_ok(c: Config) -> bool {
    forall|b: int| 0 <= b < 4 ==> band_ok(c, b)
}

pub open spec fn params_ok(c: Config) -> bool {
    &&& c.thresh_ratio <= MAX_PARAM
    &&& c.thresh_floor <= MAX_PARAM
    &&& c.min_increase <= MAX_PARAM
    &&& c.min_absolute <= MAX_PARAM
    &&& c.min_note_gap <= MAX_PARAM
    &&& 0 < c.lookahead <= 1024
    &&& c.sustain_ratio <= MAX_PARAM
    &&& 0 < c.min_hold <= c.max_hold <= MAX_PARAM
    &&& c.cluster_window <= MAX_PARAM
    &&& 0 < c.cluster_pad <= MAX_PARAM
    &&& 0 < c.max_cluster <= MAX_PARAM
    &&& c.min_global_gap <= MAX_PARAM
}

impl Config {
    /// A configuration that the pipeline accepts.
    pub open spec fn wf(&self) -> bool {
        framing_ok(*self) && bands_ok(*self) && params_ok(*self)
    }

    /// The documented defaults: 512-sample frames with a 256-sample hop, bands
    /// 20-100, 100-300, 300-800 and 800-2000 Hz, threshold 2.0 times the
    /// previous energy plus 0.2, least rise 0.15, least energy 0.3, lane gap
    /// 0.1 s, 8 windows of lookahead at a sustain ratio of 0.6, holds of 0.3 to
    /// 1.5 s, clusters within 0.12 s padded by 0.1 s and capped at 3.0 s, and a
    /// global gap of 0.03 s.
    pub fn defaults() -> (r: Config)
        ensures
            r.wf(),
            r.frame_len == 512,
            r.hop_len == 256,
            r.band_low_hz@ == seq![20u64, 100, 300, 800],
            r.band_high_hz@ == seq![100u64, 300, 800, 2000],
            r.thresh_ratio == 2000,
            r.thresh_floor == 200000,
            r.min_increase == 150000,
            r.min_absolute == 300000,
            r.min_note_gap == 100000,
            r.lookahead == 8,
            r.sustain_ratio == 600,
            r.min_hold == 300000,
            r.max_hold == 1500000,
            r.cluster_window == 120000,
            r.cluster_pad == 100000,
            r.max_cluster == 3000000,
            r.min_global_gap == 30000,
    {
        let r = Config {
            frame_len: 512,
            hop_len: 256,
            band_low_hz: [20, 100, 300, 800],
            band_high_hz: [100, 300, 800, 2000],
            thresh_ratio: 2000,
            thresh_floor: 200000,
            min_increase: 150000,
            min_absolute: 300000,
            min_note_gap: 100000,
            lookahead: 8,
            sustain_ratio: 600,
            min_hold: 300000,
            max_hold: 1500000,
            cluster_window: 120000,
            cluster_pad: 100000,
            max_cluster: 3000000,
            min_global_gap: 30000,
        };
        assert(r.band_low_hz@ =~= seq![20u64, 100, 300, 800]);
        assert(r.band_high_hz@ =~= seq![100u64, 300, 800, 2000]);
        r
    }

    /// Checks the configuration once, before the pipeline runs.
    pub fn validate(&self) -> (r: Result<(), ConfigError>)
        ensures
            r is Ok <==> self.wf(),
            r == Err::<(), ConfigError>(ConfigError::BadFraming) <==> !framing_ok(*self),
            r == Err::<(), ConfigError>(ConfigError::BadBand) <==> framing_ok(*self) && !bands_ok(*self),
            r == Err::<(), ConfigError>(ConfigError::BadParameter) <==> framing_ok(*self) && bands_ok(*self) && !params_ok(*self),
    {
        if !(0 < self.hop_len && self.hop_len < self.frame_len && self.frame_len <= MAX_FRAME_LEN) {
            return Err(ConfigError::BadFraming);
        }
        let mut b: usize = 0;
        while b < 4
            invariant
                b <= 4,
                framing_ok(*self),
                forall|j: int| 0 <= j < b ==> band_ok(*self, j),
            decreases 4 - b,
        {
            let lo = self.band_low_hz[b];
            let hi = self.band_high_hz[b];
            if !(ANALYSIS_LOW_HZ <= lo && lo < hi && hi <= ANALYSIS_HIGH_HZ) {
                assert(!band_ok(*self, b as int));
                assert(!bands_ok(*self));
                return Err(ConfigError::BadBand);
            }
            b = b + 1;
        }
        if self.thresh_ratio <= MAX_PARAM && self.thresh_floor <= MAX_PARAM
            && self.min_increase <= MAX_PARAM && self.min_absolute <= MAX_PARAM
            && self.min_note_gap <= MAX_PARAM && 0 < self.lookahead && self.lookahead <= 1024
            && self.sustain_ratio <= MAX_PARAM && 0 < self.min_hold && self.min_hold <= self.max_hold
            && self.max_hold <= MAX_PARAM && self.cluster_window <= MAX_PARAM
            && 0 < self.cluster_pad && self.cluster_pad <= MAX_PARAM
            && 0 < self.max_cluster && self.max_cluster <= MAX_PARAM
            && self.min_global_gap <= MAX_PARAM {
            Ok(())
        } else {
            Err(ConfigError::BadParameter)
        }
    }
}

} // verus!
