use vstd::prelude::*;
use crate::config::{Config, MAX_SAMPLES};
use crate::note::{Note, NoteKind};
use crate::signal::{abs_sum, window_abs_sum, frame_count};
use crate::postprocess::{sorted_by_time, all_ok, note_ok};

verus! {

/// Time of a sample offset, in microseconds (rounded down).
pub open spec fn time_of(offset: int, rate: int) -> int {
    offset * 1000000 / rate
}

/// Whether the window of `frame_len` samples at `pos` lies in the signal and
/// its mean absolute amplitude reaches the sustain share of `energy`.
pub open spec fn sustained(mono: Seq<i32>, pos: int, energy: int, c: Config) -> bool {
    &&& pos + c.frame_len <= mono.len()
    &&& abs_sum(mono, pos, c.frame_len as int) * 1000 >= energy * c.sustain_ratio * c.frame_len
}

/// Length of the unbroken run of sustained lookahead windows from step `i`.
pub open spec fn sustain_run(mono: Seq<i32>, start: int, energy: int, c: Config, i: int) -> int
    decreases c.lookahead + 1 - i,
{
    if i < 1 || i > c.lookahead {
        0
    } else if sustained(mono, start + i * c.hop_len, energy, c) {
        1 + sustain_run(mono, start, energy, c, i + 1)
    } else {
        0
    }
}

/// `x` clamped to `[lo, hi]`.
pub open spec fn clamp(x: int, lo: int, hi: int) -> int {
    if x < lo { lo } else if x > hi { hi } else { x }
}

/// Kind and duration of the note that an onset of `energy` at `start` becomes.
pub open spec fn classify(mono: Seq<i32>, start: int, energy: int, c: Config, rate: int) -> (NoteKind, u64) {
    let run = sustain_run(mono, start, energy, c, 1);
    if run >= c.lookahead / 2 {
        (NoteKind::Hold, clamp(time_of(run * c.hop_len, rate), c.min_hold as int, c.max_hold as int) as u64)
    } else {
        (NoteKind::Tap, 0u64)
    }
}

/// Tap or hold for an onset of `energy` at `start`: counts the consecutive
/// hop-spaced lookahead windows whose mean absolute amplitude reaches the
/// sustain share of `energy`, stopping at the first that does not or that runs
/// past the signal; a run of at least half the lookahead makes a hold of that
/// many hops, clamped to the hold range.
pub fn classify_onset(mono: &Vec<i32>, start: usize, energy: u64, cfg: &Config, sample_rate: u32) -> (r: (NoteKind, u64))
    requires
        cfg.wf(),
        sample_rate > 0,
        mono.len() <= MAX_SAMPLES,
        start <= MAX_SAMPLES,
    ensures
        r == classify(mono@, start as int, energy as int, *cfg, sample_rate as int),
{
    let mut run: u64 = 0;
    let mut i: usize = 1;
    let mut going = true;
    while going && i <= cfg.lookahead
        invariant
            cfg.wf(),
            mono.len() <= MAX_SAMPLES,
            start <= MAX_SAMPLES,
            1 <= i <= cfg.lookahead + 1,
            run <= i,
            going ==> run + sustain_run(mono@, start as int, energy as int, *cfg, i as int)
                == sustain_run(mono@, start as int, energy as int, *cfg, 1),
            !going ==> run == sustain_run(mono@, start as int, energy as int, *cfg, 1),
        decreases (cfg.lookahead + 1 - i) as int + if going { 1int } else { 0int },
    {
        assert(i * cfg.hop_len <= 1025 * 1048576) by (nonlinear_arith)
            requires i <= 1025, cfg.hop_len <= 1048576;
        let pos: u64 = start as u64 + (i as u64) * (cfg.hop_len as u64);
        let fits = pos + cfg.frame_len as u64 <= mono.len() as u64;
        let mut ok = false;
        if fits {
            let s = window_abs_sum(mono, pos as usize, cfg.frame_len);
            let lhs: u128 = (s as u128) * 1000;
            assert(energy * cfg.sustain_ratio <= 18446744073709551615 * 4294967295) by (nonlinear_arith)
                requires energy <= 18446744073709551615, cfg.sustain_ratio <= 4294967295;
            assert(energy * cfg.sustain_ratio * cfg.frame_len <= 18446744073709551615 * 4294967295 * 1048576) by (nonlinear_arith)
                requires energy * cfg.sustain_ratio <= 18446744073709551615 * 4294967295, cfg.frame_len <= 1048576;
            let rhs: u128 = (energy as u128) * (cfg.sustain_ratio as u128) * (cfg.frame_len as u128);
            ok = lhs >= rhs;
        }
        if ok {
            run = run + 1;
            i = i + 1;
        } else {
            going = false;
        }
    }
    if run >= (cfg.lookahead / 2) as u64 {
        assert(run * cfg.hop_len <= 1025 * 1048576) by (nonlinear_arith)
            requires run <= 1025, cfg.hop_len <= 1048576;
        let d: u64 = (run * (cfg.hop_len as u64) * 1000000) / (sample_rate as u64);
        let d2 = if d < cfg.min_hold { cfg.min_hold } else if d > cfg.max_hold { cfg.max_hold } else { d };
        (NoteKind::Hold, d2)
    } else {
        (NoteKind::Tap, 0)
    }
}

/// Whether band energy `cur` is an onset over the previous frame's `prev`: it
/// exceeds the adaptive threshold, rose by more than the least increase, and
/// exceeds the least energy.
pub open spec fn fires(c: Config, cur: int, prev: int) -> bool {
    &&& cur * 1000 > prev * c.thresh_ratio + c.thresh_floor * 1000
    &&& cur - prev > c.min_increase
    &&& cur > c.min_absolute
}

/// Whether band `b` emits a note at time `ts`: it fires, and its lane's last
/// note is not within the lane gap.
pub open spec fn emits(prev: Seq<u64>, last: Seq<Option<u64>>, e: Seq<u64>, ts: int, c: Config, b: int) -> bool {
    &&& fires(c, e[b] as int, prev[b] as int)
    &&& !(last[b] matches Some(t) && ts - t < c.min_note_gap)
}

/// Lane `b`'s last note time after a frame.
pub open spec fn next_last(prev: Seq<u64>, last: Seq<Option<u64>>, e: Seq<u64>, ts: int, c: Config, b: int) -> Option<u64> {
    if emits(prev, last, e, ts, c, b) { Some(ts as u64) } else { last[b] }
}

/// The note that band `b` emits in the frame at `start`.
pub open spec fn band_note(mono: Seq<i32>, start: int, e: Seq<u64>, ts: int, c: Config, rate: int, b: int) -> Note {
    let k = classify(mono, start, e[b] as int, c, rate);
    Note { timestamp: ts as u64, lane: b as usize, note_type: k.0, duration: k.1, energy: e[b] }
}

/// The notes that bands `0..n` emit in one frame, in band order.
pub open spec fn frame_events(
    prev: Seq<u64>, last: Seq<Option<u64>>, e: Seq<u64>, mono: Seq<i32>, start: int, c: Config, rate: int, n: int,
) -> Seq<Note>
    decreases n,
{
    if n <= 0 {
        Seq::empty()
    } else {
        frame_events(prev, last, e, mono, start, c, rate, n - 1) + if emits(prev, last, e, time_of(start, rate), c, n - 1) {
            seq![band_note(mono, start, e, time_of(start, rate), c, rate, n - 1)]
        } else {
            Seq::empty()
        }
    }
}

proof fn lemma_frame_events_unfold(
    prev: Seq<u64>, last: Seq<Option<u64>>, e: Seq<u64>, mono: Seq<i32>, start: int, c: Config, rate: int, n: int,
)
    requires
        n > 0,
    ensures
        frame_events(prev, last, e, mono, start, c, rate, n) == frame_events(prev, last, e, mono, start, c, rate, n - 1)
            + if emits(prev, last, e, time_of(start, rate), c, n - 1) {
                seq![band_note(mono, start, e, time_of(start, rate), c, rate, n - 1)]
            } else {
                Seq::<Note>::empty()
            },
{
}

/// What the detector carries from one frame to the next.
#[derive(Clone, Copy, Debug)]
pub struct OnsetState {
    /// The previous frame's band energies.
    pub prev: [u64; 4],
    /// The time of the last note of each lane, if any.
    pub last: [Option<u64>; 4],
}

impl OnsetState {
    /// The state before the first frame: zero energies, no notes.
    pub fn new() -> (r: OnsetState)
        ensures
            r.prev@ == seq![0u64, 0, 0, 0],
            r.last@ == seq![None::<u64>, None, None, None],
    {
        let r = OnsetState { prev: [0, 0, 0, 0], last: [None, None, None, None] };
        assert(r.prev@ =~= seq![0u64, 0, 0, 0]);
        assert(r.last@ =~= seq![None::<u64>, None, None, None]);
        r
    }
}

/// Detector state and notes after the first `k` frames of `energies`.
pub open spec fn detect_fold(mono: Seq<i32>, energies: Seq<Seq<u64>>, c: Config, rate: int, k: int)
    -> (Seq<u64>, Seq<Option<u64>>, Seq<Note>)
    decreases k,
{
    if k <= 0 {
        (seq![0u64, 0, 0, 0], seq![None::<u64>, None, None, None], Seq::empty())
    } else {
        let (p, l, notes) = detect_fold(mono, energies, c, rate, k - 1);
        let e = energies[k - 1];
        let start = (k - 1) * c.hop_len;
        let ts = time_of(start, rate);
        (e, Seq::new(4, |b: int| next_last(p, l, e, ts, c, b)), notes + frame_events(p, l, e, mono, start, c, rate, 4))
    }
}

/// The rows of a table of band energies.
pub open spec fn rows_of(t: Seq<[u64; 4]>) -> Seq<Seq<u64>> {
    t.map_values(|a: [u64; 4]| a@)
}

/// No band energy of any frame exceeds the least onset energy.
pub open spec fn quiet(energies: Seq<Seq<u64>>, c: Config) -> bool {
    forall|k: int, b: int| 0 <= k < energies.len() && 0 <= b < 4 ==> #[trigger] energies[k][b] <= c.min_absolute
}

/// Facts of every note that one frame emits.
proof fn lemma_frame_events_facts(
    prev: Seq<u64>, last: Seq<Option<u64>>, e: Seq<u64>, mono: Seq<i32>, start: int, c: Config, rate: int, n: int,
)
    requires
        c.wf(),
        rate > 0,
        0 <= start <= MAX_SAMPLES,
        n <= 4,
    ensures
        forall|i: int| 0 <= i < frame_events(prev, last, e, mono, start, c, rate, n).len() ==> {
            let x = #[trigger] frame_events(prev, last, e, mono, start, c, rate, n)[i];
            &&& x.timestamp == time_of(start, rate)
            &&& note_ok(x, c)
            &&& x.lane < n
            &&& emits(prev, last, e, time_of(start, rate), c, x.lane as int)
        },
        forall|i: int, j: int| 0 <= i < j < frame_events(prev, last, e, mono, start, c, rate, n).len()
            ==> frame_events(prev, last, e, mono, start, c, rate, n)[i].lane < frame_events(prev, last, e, mono, start, c, rate, n)[j].lane,
        (e.len() == 4 && forall|b: int| 0 <= b < 4 ==> e[b] <= c.min_absolute)
            ==> frame_events(prev, last, e, mono, start, c, rate, n).len() == 0,
    decreases n,
{
    assert(0 <= time_of(start, rate) <= start * 1000000) by (nonlinear_arith)
        requires 0 <= start, rate > 0, time_of(start, rate) == start * 1000000 / rate;
    if n > 0 {
        lemma_frame_events_facts(prev, last, e, mono, start, c, rate, n - 1);
        lemma_frame_events_unfold(prev, last, e, mono, start, c, rate, n);
    }
}

/// Any two notes of one lane are at least `g` apart.
pub open spec fn lane_spaced(s: Seq<Note>, g: int) -> bool {
    forall|i: int, j: int| 0 <= i < j < s.len() && s[i].lane == s[j].lane ==> s[j].timestamp >= s[i].timestamp + g
}

/// Notes that the detector finds in a whole signal.
pub open spec fn detected(mono: Seq<i32>, energies: Seq<Seq<u64>>, c: Config, rate: int) -> Seq<Note> {
    detect_fold(mono, energies, c, rate, energies.len() as int).2
}

/// One frame of onset detection: for each band in order, emits a classified
/// note at the frame's time when the band fires and its lane's last note is
/// at least the lane gap earlier; then the frame's energies become the
/// previous energies, whatever fired.
pub fn onset_step(
    state: &OnsetState, energies: &[u64; 4], frame_start: usize, mono: &Vec<i32>, sample_rate: u32, cfg: &Config,
    out: &mut Vec<Note>,
) -> (r: OnsetState)
    requires
        cfg.wf(),
        sample_rate > 0,
        mono.len() <= MAX_SAMPLES,
        frame_start <= MAX_SAMPLES,
    ensures
        r.prev@ == energies@,
        r.last@ == Seq::new(4, |b: int| next_last(state.prev@, state.last@, energies@, time_of(frame_start as int, sample_rate as int), *cfg, b)),
        final(out)@ == old(out)@ + frame_events(state.prev@, state.last@, energies@, mono@, frame_start as int, *cfg, sample_rate as int, 4),
{
    let ts: u64 = (frame_start as u64 * 1000000) / (sample_rate as u64);
    let ghost ets = time_of(frame_start as int, sample_rate as int);
    let ghost out0 = out@;
    let mut last_v: Vec<Option<u64>> = Vec::new();
    let mut b: usize = 0;
    while b < 4
        invariant
            cfg.wf(),
            sample_rate > 0,
            mono.len() <= MAX_SAMPLES,
            frame_start <= MAX_SAMPLES,
            ts == ets,
            ets == time_of(frame_start as int, sample_rate as int),
            b <= 4,
            last_v@.len() == b,
            forall|j: int| 0 <= j < b ==> last_v@[j] == next_last(state.prev@, state.last@, energies@, ets, *cfg, j),
            out@ == out0 + frame_events(state.prev@, state.last@, energies@, mono@, frame_start as int, *cfg, sample_rate as int, b as int),
        decreases 4 - b,
    {
        let cur = energies[b];
        let prev = state.prev[b];
        assert(prev * cfg.thresh_ratio <= 18446744073709551615 * 4294967295) by (nonlinear_arith)
            requires prev <= 18446744073709551615, cfg.thresh_ratio <= 4294967295;
        let fire = (cur as u128) * 1000 > (prev as u128) * (cfg.thresh_ratio as u128) + (cfg.thresh_floor as u128) * 1000
            && (cur as u128) > (prev as u128) + (cfg.min_increase as u128)
            && cur > cfg.min_absolute;
        let near = match state.last[b] {
            Some(t) => (ts as u128) < (t as u128) + (cfg.min_note_gap as u128),
            None => false,
        };
        assert(fire && !near <==> emits(state.prev@, state.last@, energies@, ets, *cfg, b as int));
        let ghost before = out@;
        if fire && !near {
            let k = classify_onset(mono, frame_start, cur, cfg, sample_rate);
            out.push(Note { timestamp: ts, lane: b, note_type: k.0, duration: k.1, energy: cur });
            last_v.push(Some(ts));
            assert(out@ =~= before + seq![band_note(mono@, frame_start as int, energies@, ets, *cfg, sample_rate as int, b as int)]);
        } else {
            last_v.push(state.last[b]);
            assert(out@ =~= before + Seq::<Note>::empty());
        }
        proof {
            let fe_b = frame_events(state.prev@, state.last@, energies@, mono@, frame_start as int, *cfg, sample_rate as int, b as int);
            let x = if emits(state.prev@, state.last@, energies@, ets, *cfg, b as int) {
                seq![band_note(mono@, frame_start as int, energies@, ets, *cfg, sample_rate as int, b as int)]
            } else {
                Seq::<Note>::empty()
            };
            let n1: int = b as int + 1;
            assert(n1 - 1 == b as int);
            lemma_frame_events_unfold(state.prev@, state.last@, energies@, mono@, frame_start as int, *cfg, sample_rate as int, n1);
            assert(frame_events(state.prev@, state.last@, energies@, mono@, frame_start as int, *cfg, sample_rate as int, n1) == fe_b + x);
            assert(out@ =~= before + x);
            assert(out0 + fe_b + x =~= out0 + (fe_b + x));
        }
        b = b + 1;
    }
    let r = OnsetState { prev: *energies, last: [last_v[0], last_v[1], last_v[2], last_v[3]] };
    assert(r.last@ =~= Seq::new(4, |b: int| next_last(state.prev@, state.last@, energies@, ets, *cfg, b)));
    r
}

/// Runs the detector over the band energies of consecutive frames, frame `k`
/// starting at sample `k * hop_len` of `mono`.
pub fn detect_onsets(mono: &Vec<i32>, energies: &Vec<[u64; 4]>, sample_rate: u32, cfg: &Config) -> (r: Vec<Note>)
    requires
        cfg.wf(),
        sample_rate > 0,
        mono.len() <= MAX_SAMPLES,
        energies.len() <= frame_count(mono.len() as int, cfg.frame_len as int, cfg.hop_len as int),
    ensures
        r@ == detected(mono@, rows_of(energies@), *cfg, sample_rate as int),
        sorted_by_time(r@),
        all_ok(r@, *cfg),
        lane_spaced(r@, cfg.min_note_gap as int),
        quiet(rows_of(energies@), *cfg) ==> r@.len() == 0,
{
    let mut out: Vec<Note> = Vec::new();
    let mut state = OnsetState::new();
    let mut k: usize = 0;
    assert(out@ =~= Seq::empty());
    while k < energies.len()
        invariant
            cfg.wf(),
            sample_rate > 0,
            mono.len() <= MAX_SAMPLES,
            energies.len() <= frame_count(mono.len() as int, cfg.frame_len as int, cfg.hop_len as int),
            k <= energies.len(),
            (state.prev@, state.last@, out@) == detect_fold(mono@, rows_of(energies@), *cfg, sample_rate as int, k as int),
            sorted_by_time(out@),
            all_ok(out@, *cfg),
            forall|j: int| 0 <= j < out@.len() ==> (#[trigger] out@[j]).timestamp <= time_of(k * cfg.hop_len, sample_rate as int),
            quiet(rows_of(energies@), *cfg) ==> out@.len() == 0,
            lane_spaced(out@, cfg.min_note_gap as int),
            state.last@.len() == 4,
            forall|j: int| 0 <= j < out@.len() ==> (state.last@[(#[trigger] out@[j]).lane as int] matches Some(t)
                && out@[j].timestamp <= t),
        decreases energies.len() - k,
    {
        assert(k * cfg.hop_len <= mono.len()) by (nonlinear_arith)
            requires
                k < frame_count(mono.len() as int, cfg.frame_len as int, cfg.hop_len as int),
                cfg.hop_len > 0,
                cfg.frame_len > 0,
        {
            assert(mono.len() >= cfg.frame_len);
            assert(k <= (mono.len() - cfg.frame_len) / (cfg.hop_len as int));
            assert(k * cfg.hop_len <= ((mono.len() - cfg.frame_len) / (cfg.hop_len as int)) * cfg.hop_len);
        }
        let start = k * cfg.hop_len;
        let p = state;
        let ghost before = out@;
        state = onset_step(&p, &energies[k], start, mono, sample_rate, cfg, &mut out);
        proof {
            let ghost rows = rows_of(energies@);
            assert(rows[k as int] == energies@[k as int]@);
            assert(state.last@ =~= detect_fold(mono@, rows, *cfg, sample_rate as int, k + 1).1);
            let fe = frame_events(p.prev@, p.last@, energies@[k as int]@, mono@, start as int, *cfg, sample_rate as int, 4);
            lemma_frame_events_facts(p.prev@, p.last@, energies@[k as int]@, mono@, start as int, *cfg, sample_rate as int, 4);
            let t = time_of(start as int, sample_rate as int);
            assert(out@ == before + fe);
            assert forall|j: int| 0 <= j < out@.len() implies note_ok(#[trigger] out@[j], *cfg) by {
                if j < before.len() {
                    assert(out@[j] == before[j]);
                } else {
                    assert(out@[j] == fe[j - before.len()]);
                }
            }
            assert forall|i: int, j: int| 0 <= i < j < out@.len() implies out@[i].timestamp <= out@[j].timestamp by {
                if j < before.len() {
                    assert(out@[i] == before[i] && out@[j] == before[j]);
                } else if i < before.len() {
                    assert(out@[i] == before[i]);
                    assert(before[i].timestamp <= t);
                    assert(out@[j] == fe[j - before.len()]);
                } else {
                    assert(out@[i] == fe[i - before.len()]);
                    assert(out@[j] == fe[j - before.len()]);
                }
            }
            assert(t <= time_of((k + 1) * cfg.hop_len, sample_rate as int)) by {
                assert(start * 1000000 <= (k + 1) * cfg.hop_len * 1000000) by (nonlinear_arith)
                    requires start == k * cfg.hop_len, cfg.hop_len > 0;
                vstd::arithmetic::div_mod::lemma_div_is_ordered(start * 1000000, (k + 1) * cfg.hop_len * 1000000, sample_rate as int);
            }
            assert forall|j: int| 0 <= j < out@.len() implies (#[trigger] out@[j]).timestamp <= time_of((k + 1) * cfg.hop_len, sample_rate as int) by {
                if j < before.len() {
                    assert(out@[j] == before[j]);
                } else {
                    assert(out@[j] == fe[j - before.len()]);
                }
            }
            assert forall|j: int| 0 <= j < out@.len() implies (state.last@[(#[trigger] out@[j]).lane as int] matches Some(tt)
                && out@[j].timestamp <= tt) by {
                assert(note_ok(out@[j], *cfg));
                let b = out@[j].lane as int;
                if j < before.len() {
                    assert(out@[j] == before[j]);
                    assert(p.last@[b] matches Some(tt) && before[j].timestamp <= tt);
                    assert(before[j].timestamp <= t);
                } else {
                    assert(out@[j] == fe[j - before.len()]);
                    assert(emits(p.prev@, p.last@, energies@[k as int]@, t, *cfg, b));
                }
            }
            assert forall|i: int, j: int| 0 <= i < j < out@.len() && out@[i].lane == out@[j].lane
                implies out@[j].timestamp >= out@[i].timestamp + cfg.min_note_gap by {
                if j < before.len() {
                    assert(out@[i] == before[i] && out@[j] == before[j]);
                } else if i < before.len() {
                    assert(out@[i] == before[i]);
                    let b = before[i].lane as int;
                    assert(note_ok(before[i], *cfg));
                    assert(p.last@[b] matches Some(tt) && before[i].timestamp <= tt);
                    assert(out@[j] == fe[j - before.len()]);
                    assert(emits(p.prev@, p.last@, energies@[k as int]@, t, *cfg, b));
                } else {
                    assert(out@[i] == fe[i - before.len()]);
                    assert(out@[j] == fe[j - before.len()]);
                }
            }
            if quiet(rows, *cfg) {
                assert(energies@[k as int]@.len() == 4);
                assert forall|b: int| 0 <= b < 4 implies energies@[k as int]@[b] <= cfg.min_absolute by {
                    assert(rows[k as int][b] <= cfg.min_absolute);
                }
            }
        }
        k = k + 1;
    }
    out
}

} // verus!
