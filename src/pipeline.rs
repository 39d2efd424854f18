use vstd::prelude::*;
use crate::config::{Config, ConfigError, MAX_SAMPLES};
use crate::note::Note;
use crate::signal::{InputError, frame_count};
use crate::bands::{band_energies, band_energy};
use crate::onset::{detect_onsets, detected, rows_of, quiet};
use crate::postprocess::{post_process, post_processed, sorted_by_time, spaced, all_ok, lemma_spaced_sorted};
use crate::balance::{balance_lanes, balanced};

verus! {

/// The beatmap of a mono signal whose frames have the given band energies:
/// detected onsets, post-processed, then lane-balanced.
pub open spec fn beatmap(mono: Seq<i32>, energies: Seq<Seq<u64>>, c: Config, rate: int) -> Seq<Note> {
    balanced(post_processed(detected(mono, energies, c, rate), c))
}

/// Runs detection, post-processing and lane balancing on a mono signal whose
/// frame `k`, starting at sample `k * hop_len`, has band energies
/// `energies[k]`. The result is sorted by time, adjacent notes are at least
/// the global gap apart, every lane is in range, taps have no duration and
/// holds keep to the hold range or the cluster cap; if no band energy exceeds
/// the least onset energy, there are no notes.
pub fn build_beatmap(mono: &Vec<i32>, energies: &Vec<[u64; 4]>, sample_rate: u32, cfg: &Config) -> (r: Vec<Note>)
    requires
        cfg.wf(),
        sample_rate > 0,
        mono.len() <= MAX_SAMPLES,
        energies.len() <= frame_count(mono.len() as int, cfg.frame_len as int, cfg.hop_len as int),
    ensures
        r@ == beatmap(mono@, rows_of(energies@), *cfg, sample_rate as int),
        sorted_by_time(r@),
        spaced(r@, cfg.min_global_gap as int),
        all_ok(r@, *cfg),
        quiet(rows_of(energies@), *cfg) ==> r@.len() == 0,
{
    let notes = detect_onsets(mono, energies, sample_rate, cfg);
    let processed = post_process(&notes, cfg);
    let r = balance_lanes(&processed, cfg);
    proof {
        lemma_spaced_sorted(r@, cfg.min_global_gap as int);
        if quiet(rows_of(energies@), *cfg) {
            assert(notes@ =~= Seq::<Note>::empty());
        }
    }
    r
}

/// Why an analysis is refused.
#[derive(PartialEq, Eq, Structural, Clone, Copy, Debug)]
pub enum AnalysisError {
    /// The configuration is invalid.
    Config(ConfigError),
    /// The signal or its metadata is invalid.
    Input(InputError),
    /// The number of spectra is not the number of frames of the signal.
    FrameMismatch,
}

/// Band energies of each spectrum.
pub open spec fn spectral_rows(spectra: Seq<Vec<(u64, u32)>>, c: Config) -> Seq<Seq<u64>> {
    Seq::new(spectra.len(), |k: int| Seq::new(4, |b: int| band_energy(spectra[k]@, c, b) as u64))
}

/// Whether the signal and its spectra can be analysed.
pub open spec fn analysable(mono: Seq<i32>, spectra: Seq<Vec<(u64, u32)>>, rate: int, c: Config) -> bool {
    &&& c.wf()
    &&& rate > 0
    &&& 0 < mono.len() <= MAX_SAMPLES
    &&& spectra.len() == frame_count(mono.len() as int, c.frame_len as int, c.hop_len as int)
}

/// The beatmap of a mono signal from the magnitude spectra of its frames,
/// frame `k` starting at sample `k * hop_len`; each bin is a frequency in
/// milli-Hz and a magnitude. The configuration is checked first, then the
/// sample rate, the signal's length and the number of spectra.
pub fn beatmap_from_spectra(mono: &Vec<i32>, spectra: &Vec<Vec<(u64, u32)>>, sample_rate: u32, cfg: &Config)
    -> (r: Result<Vec<Note>, AnalysisError>)
    requires
        forall|k: int| 0 <= k < spectra@.len() ==> (#[trigger] spectra@[k])@.len() <= 4294967295,
    ensures
        r is Ok <==> analysable(mono@, spectra@, sample_rate as int, *cfg),
        r matches Err(AnalysisError::Config(_)) <==> !cfg.wf(),
        r == Err::<Vec<Note>, AnalysisError>(AnalysisError::Input(InputError::ZeroSampleRate)) <==> cfg.wf() && sample_rate == 0,
        r == Err::<Vec<Note>, AnalysisError>(AnalysisError::Input(InputError::BadLength))
            <==> cfg.wf() && sample_rate > 0 && !(0 < mono@.len() <= MAX_SAMPLES),
        r matches Ok(v) ==> v@ == beatmap(mono@, spectral_rows(spectra@, *cfg), *cfg, sample_rate as int),
        r matches Ok(v) ==> sorted_by_time(v@),
        r matches Ok(v) ==> spaced(v@, cfg.min_global_gap as int),
        r matches Ok(v) ==> all_ok(v@, *cfg),
        r matches Ok(v) ==> (quiet(spectral_rows(spectra@, *cfg), *cfg) ==> v@.len() == 0),
{
    match cfg.validate() {
        Ok(()) => {},
        Err(e) => {
            return Err(AnalysisError::Config(e));
        },
    }
    if sample_rate == 0 {
        return Err(AnalysisError::Input(InputError::ZeroSampleRate));
    }
    if mono.len() == 0 || mono.len() > MAX_SAMPLES {
        return Err(AnalysisError::Input(InputError::BadLength));
    }
    let expected = if mono.len() < cfg.frame_len { 0 } else { (mono.len() - cfg.frame_len) / cfg.hop_len + 1 };
    if spectra.len() != expected {
        return Err(AnalysisError::FrameMismatch);
    }
    let mut energies: Vec<[u64; 4]> = Vec::new();
    let mut k: usize = 0;
    while k < spectra.len()
        invariant
            cfg.wf(),
            k <= spectra@.len(),
            forall|j: int| 0 <= j < spectra@.len() ==> (#[trigger] spectra@[j])@.len() <= 4294967295,
            energies@.len() == k,
            forall|j: int| 0 <= j < k ==> (#[trigger] rows_of(energies@)[j]) == spectral_rows(spectra@, *cfg)[j],
        decreases spectra.len() - k,
    {
        assert(spectra@[k as int]@.len() <= 4294967295);
        let e = band_energies(&spectra[k], cfg);
        let ghost before = energies@;
        energies.push(e);
        proof {
            assert forall|j: int| 0 <= j < k + 1 implies (#[trigger] rows_of(energies@)[j]) == spectral_rows(spectra@, *cfg)[j] by {
                if j < k {
                    assert(rows_of(energies@)[j] == rows_of(before)[j]);
                } else {
                    assert(rows_of(energies@)[j] =~= spectral_rows(spectra@, *cfg)[j]);
                }
            }
        }
        k = k + 1;
    }
    assert(rows_of(energies@) =~= spectral_rows(spectra@, *cfg));
    Ok(build_beatmap(mono, &energies, sample_rate, cfg))
}

/// The same signal, energies, configuration and rate always give the same
/// beatmap.
pub proof fn lemma_deterministic(
    m1: Seq<i32>, e1: Seq<Seq<u64>>, m2: Seq<i32>, e2: Seq<Seq<u64>>, c: Config, rate: int,
)
    requires
        m1 == m2,
        e1 == e2,
    ensures
        beatmap(m1, e1, c, rate) == beatmap(m2, e2, c, rate),
{
}

} // verus!
