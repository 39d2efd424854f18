use vstd::prelude::*;

verus! {

/// Why an input signal is refused.
#[derive(PartialEq, Eq, Structural, Clone, Copy, Debug)]
pub enum InputError {
    /// The channel count is zero.
    ZeroChannels,
    /// The sample rate is zero.
    ZeroSampleRate,
    /// There are no samples, or more than the pipeline accepts.
    BadLength,
}

/// Floor of the mean of two samples.
pub open spec fn mean2(a: i32, b: i32) -> i32 {
    ((a as int + b as int) / 2) as i32
}

/// The mono signal of an interleaved buffer: two channels are averaged pairwise,
/// any other count passes through.
pub open spec fn mono_of(s: Seq<i32>, channels: int) -> Seq<i32> {
    if channels == 2 {
        Seq::new((s.len() / 2) as nat, |i: int| mean2(s[2 * i], s[2 * i + 1]))
    } else {
        s
    }
}

/// Collapses interleaved samples to one channel: with two channels each frame
/// becomes the floor of the mean of its left and right sample, a trailing odd
/// sample is dropped; any other nonzero count passes through unchanged.
pub fn mono_reduce(samples: &Vec<i32>, channels: usize) -> (r: Result<Vec<i32>, InputError>)
    ensures
        r == Err::<Vec<i32>, InputError>(InputError::ZeroChannels) <==> channels == 0,
        r is Ok <==> channels > 0,
        r matches Ok(m) ==> m@ == mono_of(samples@, channels as int),
{
    if channels == 0 {
        return Err(InputError::ZeroChannels);
    }
    if channels != 2 {
        return Ok(samples.clone());
    }
    let n = samples.len() / 2;
    let mut out: Vec<i32> = Vec::new();
    let mut i: usize = 0;
    while i < n
        invariant
            n == samples@.len() / 2,
            2 * n <= samples.len(),
            i <= n,
            out@ =~= Seq::new(i as nat, |k: int| mean2(samples@[2 * k], samples@[2 * k + 1])),
        decreases n - i,
    {
        let a = samples[2 * i] as i64;
        let b = samples[2 * i + 1] as i64;
        let shifted = (a + b + 4294967296) as u64;
        let m = ((shifted / 2) as i64 - 2147483648) as i32;
        assert(m == mean2(samples@[2 * i as int], samples@[2 * i + 1])) by {
            assert((a + b + 4294967296) / 2 == (a + b) / 2 + 2147483648);
        }
        out.push(m);
        i = i + 1;
    }
    Ok(out)
}

/// Number of whole frames of length `frame_len`, `hop` apart, in `len` samples.
pub open spec fn frame_count(len: int, frame_len: int, hop: int) -> int {
    if len < frame_len { 0 } else { (len - frame_len) / hop + 1 }
}

/// Start offsets `0, hop, 2 * hop, ...` of the frames that fit whole in a
/// signal of `len` samples; a partial last frame is dropped.
pub fn frame_offsets(len: usize, frame_len: usize, hop: usize) -> (r: Vec<usize>)
    requires
        0 < hop,
        0 < frame_len,
    ensures
        r@.len() == frame_count(len as int, frame_len as int, hop as int),
        forall|k: int| 0 <= k < r@.len() ==> r@[k] == k * hop,
        forall|k: int| 0 <= k < r@.len() ==> r@[k] + frame_len <= len,
{
    let mut out: Vec<usize> = Vec::new();
    if len < frame_len {
        return out;
    }
    let count = (len - frame_len) / hop + 1;
    let mut k: usize = 0;
    while k < count
        invariant
            count == (len - frame_len) / (hop as int) + 1,
            len >= frame_len,
            hop > 0,
            k <= count,
            out@.len() == k,
            forall|j: int| 0 <= j < k ==> out@[j] == j * hop,
            forall|j: int| 0 <= j < k ==> out@[j] + frame_len <= len,
        decreases count - k,
    {
        assert(k * hop <= len - frame_len) by (nonlinear_arith)
            requires
                k < count,
                count == (len - frame_len) / (hop as int) + 1,
                hop > 0,
                len >= frame_len,
        {
            assert(k <= (len - frame_len) / (hop as int));
            assert(k * hop <= ((len - frame_len) / (hop as int)) * hop);
        }
        out.push(k * hop);
        k = k + 1;
    }
    out
}

/// Absolute value of a sample.
pub open spec fn abs_of(x: i32) -> int {
    if x < 0 { -(x as int) } else { x as int }
}

/// Sum of the absolute values of `s[start..start + n]`.
pub open spec fn abs_sum(s: Seq<i32>, start: int, n: int) -> int
    decreases n,
{
    if n <= 0 { 0 } else { abs_sum(s, start, n - 1) + abs_of(s[start + n - 1]) }
}

/// Sum of the absolute values of the `n` samples from `start`.
pub fn window_abs_sum(s: &Vec<i32>, start: usize, n: usize) -> (r: u64)
    requires
        start + n <= s@.len(),
        n <= 1048576,
    ensures
        r == abs_sum(s@, start as int, n as int),
{
    let mut acc: u64 = 0;
    let mut i: usize = 0;
    while i < n
        invariant
            start + n <= s.len(),
            n <= 1048576,
            i <= n,
            acc == abs_sum(s@, start as int, i as int),
            acc <= i * 2147483648,
        decreases n - i,
    {
        let x = s[start + i];
        let a: u64 = if x < 0 { (-(x as i64)) as u64 } else { x as u64 };
        assert(acc + a <= (i + 1) * 2147483648) by (nonlinear_arith)
            requires acc <= i * 2147483648, a <= 2147483648;
        acc = acc + a;
        i = i + 1;
    }
    acc
}

} // verus!
