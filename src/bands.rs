use vstd::prelude::*;
use crate::config::{Config, bands_ok};

verus! {

/// Sum of the magnitudes of the first `n` bins whose frequency lies in
/// `[lo, hi)`. A bin is a frequency in milli-Hz and a magnitude.
pub open spec fn band_sum(bins: Seq<(u64, u32)>, lo: int, hi: int, n: int) -> int
    decreases n,
{
    if n <= 0 {
        0
    } else {
        band_sum(bins, lo, hi, n - 1) + if lo <= bins[n - 1].0 < hi { bins[n - 1].1 as int } else { 0 }
    }
}

/// Energy of band `b` of a spectrum: the sum of its bins' magnitudes.
pub open spec fn band_energy(bins: Seq<(u64, u32)>, c: Config, b: int) -> int {
    band_sum(bins, c.band_low_hz@[b] * 1000, c.band_high_hz@[b] * 1000, bins.len() as int)
}

fn sum_in_band(bins: &Vec<(u64, u32)>, lo: u64, hi: u64) -> (r: u64)
    requires
        bins.len() <= 4294967295,
    ensures
        r == band_sum(bins@, lo as int, hi as int, bins@.len() as int),
{
    let mut acc: u64 = 0;
    let mut i: usize = 0;
    while i < bins.len()
        invariant
            bins.len() <= 4294967295,
            i <= bins.len(),
            acc == band_sum(bins@, lo as int, hi as int, i as int),
            acc <= i * 4294967295,
        decreases bins.len() - i,
    {
        let (f, m) = bins[i];
        if lo <= f && f < hi {
            assert(acc + m <= (i + 1) * 4294967295) by (nonlinear_arith)
                requires acc <= i * 4294967295, m <= 4294967295;
            acc = acc + m as u64;
        } else {
            assert(acc <= (i + 1) * 4294967295) by (nonlinear_arith)
                requires acc <= i * 4294967295;
        }
        i = i + 1;
    }
    acc
}

/// The four band energies of one frame's spectrum, bins given as a frequency
/// in milli-Hz and a magnitude; index `b` is band `b`, which is lane `b`.
/// Bins outside every band are ignored.
pub fn band_energies(bins: &Vec<(u64, u32)>, cfg: &Config) -> (r: [u64; 4])
    requires
        bins.len() <= 4294967295,
        bands_ok(*cfg),
    ensures
        forall|b: int| 0 <= b < 4 ==> r@[b] == band_energy(bins@, *cfg, b),
{
    proof {
        assert(crate::config::band_ok(*cfg, 0));
        assert(crate::config::band_ok(*cfg, 1));
        assert(crate::config::band_ok(*cfg, 2));
        assert(crate::config::band_ok(*cfg, 3));
    }
    let e0 = sum_in_band(bins, cfg.band_low_hz[0] * 1000, cfg.band_high_hz[0] * 1000);
    let e1 = sum_in_band(bins, cfg.band_low_hz[1] * 1000, cfg.band_high_hz[1] * 1000);
    let e2 = sum_in_band(bins, cfg.band_low_hz[2] * 1000, cfg.band_high_hz[2] * 1000);
    let e3 = sum_in_band(bins, cfg.band_low_hz[3] * 1000, cfg.band_high_hz[3] * 1000);
    let r = [e0, e1, e2, e3];
    assert forall|b: int| 0 <= b < 4 implies r@[b] == band_energy(bins@, *cfg, b) by {
        assert(crate::config::band_ok(*cfg, b));
    }
    r
}

} // verus!
