//! Audio normalisation: interleaved PCM is mixed down to one channel and
//! brought to the sample rate the speech models work at.
//!
//! Samples are signed 16-bit PCM. Every sample that leaves this module is
//! given by a closed formula over the samples that entered it.

use vstd::prelude::*;
use vstd::string::*;
use vstd::arithmetic::div_mod::*;
use vstd::arithmetic::power2::{lemma_pow2_strictly_increases, lemma_pow2_unfold, pow2};

verus! {

/// Sample rate, in hertz, that segmentation, embedding and transcription expect.
pub const TARGET_SAMPLE_RATE: u32 = 16000;

/// Interleaved PCM samples with their sample rate and channel count.
pub struct PcmBuffer {
    pub samples: Vec<i16>,
    pub sample_rate: u32,
    pub channels: u16,
}

impl PcmBuffer {
    /// A buffer is normalised for `target_rate` when it is mono at that rate.
    pub open spec fn is_normalized(&self, target_rate: u32) -> bool {
        self.channels == 1 && self.sample_rate == target_rate
    }
}

/// Quotient rounded toward zero, for a positive divisor.
pub open spec fn div_toward_zero(a: int, d: int) -> int {
    if a >= 0 {
        a / d
    } else {
        -((-a) / d)
    }
}

/// Sum of `samples[start..end]`.
pub open spec fn frame_sum(samples: Seq<i16>, start: int, end: int) -> int
    decreases end - start,
{
    if end <= start {
        0
    } else {
        frame_sum(samples, start, end - 1) + samples[end - 1] as int
    }
}

/// Number of frames in `len` interleaved samples; a trailing partial frame counts.
pub open spec fn downmix_len(len: int, channels: int) -> int {
    len / channels + if len % channels == 0 { 0int } else { 1int }
}

/// End of frame `frame` in a buffer of `len` samples.
pub open spec fn frame_end(len: int, channels: int, frame: int) -> int {
    if (frame + 1) * channels <= len {
        (frame + 1) * channels
    } else {
        len
    }
}

/// The mono sample of frame `frame`: the frame's sum over the channel count.
pub open spec fn downmix_sample(samples: Seq<i16>, channels: int, frame: int) -> int {
    div_toward_zero(
        frame_sum(samples, frame * channels, frame_end(samples.len() as int, channels, frame)),
        channels,
    )
}

/// What `downmix` returns: the input itself for at most one channel,
/// else one mean per frame.
pub open spec fn downmix_spec(samples: Seq<i16>, channels: int) -> Seq<i16> {
    if channels <= 1 {
        samples
    } else {
        Seq::new(
            downmix_len(samples.len() as int, channels) as nat,
            |frame: int| downmix_sample(samples, channels, frame) as i16,
        )
    }
}

/// Number of samples after resampling `len` samples from `src_rate` to `target_rate`.
pub open spec fn resampled_len(len: int, src_rate: int, target_rate: int) -> int {
    (len * target_rate) / src_rate
}

/// Input index that output sample `i` starts from.
pub open spec fn source_index(i: int, src_rate: int, target_rate: int) -> int {
    (i * src_rate) / target_rate
}

/// How far output sample `i` lies past `source_index`, in units of `1 / target_rate`.
pub open spec fn source_offset(i: int, src_rate: int, target_rate: int) -> int {
    (i * src_rate) % target_rate
}

/// Linear interpolation from `a` toward `b` by `num / den`.
pub open spec fn interpolate(a: int, b: int, num: int, den: int) -> int {
    a + div_toward_zero((b - a) * num, den)
}

/// Output sample `i` of the resampler; the last input sample stands in for a
/// missing right neighbour.
pub open spec fn resampled_sample(
    samples: Seq<i16>,
    i: int,
    src_rate: int,
    target_rate: int,
) -> i16 {
    let idx = source_index(i, src_rate, target_rate);
    let a = samples[idx];
    let b = if idx + 1 < samples.len() {
        samples[idx + 1]
    } else {
        a
    };
    interpolate(a as int, b as int, source_offset(i, src_rate, target_rate), target_rate) as i16
}

/// What `resample` returns.
pub open spec fn resample_spec(samples: Seq<i16>, src_rate: int, target_rate: int) -> Seq<i16> {
    Seq::new(
        resampled_len(samples.len() as int, src_rate, target_rate) as nat,
        |i: int| resampled_sample(samples, i, src_rate, target_rate),
    )
}

/// What `normalize` returns as samples: downmix, then resample unless the
/// rate is already the target.
pub open spec fn normalize_spec(
    samples: Seq<i16>,
    channels: int,
    src_rate: int,
    target_rate: int,
) -> Seq<i16> {
    let mono = downmix_spec(samples, channels);
    if src_rate == target_rate {
        mono
    } else {
        resample_spec(mono, src_rate, target_rate)
    }
}

/// A frame's sum stays within the frame length times the sample range.
pub proof fn lemma_frame_sum_bounds(samples: Seq<i16>, start: int, end: int)
    requires
        0 <= start <= end <= samples.len(),
    ensures
        -32768 * (end - start) <= frame_sum(samples, start, end) <= 32767 * (end - start),
    decreases end - start,
{
    if start < end {
        lemma_frame_sum_bounds(samples, start, end - 1);
    }
}

/// A frame of zeros sums to zero.
pub proof fn lemma_frame_sum_zero(samples: Seq<i16>, start: int, end: int)
    requires
        0 <= start <= end <= samples.len(),
        forall|k: int| start <= k < end ==> samples[k] == 0,
    ensures
        frame_sum(samples, start, end) == 0,
    decreases end - start,
{
    if start < end {
        lemma_frame_sum_zero(samples, start, end - 1);
    }
}

/// The mean of a frame of 16-bit samples is a 16-bit sample.
pub proof fn lemma_mean_in_range(sum: int, frame_len: int, channels: int)
    requires
        0 <= frame_len <= channels,
        channels > 0,
        -32768 * frame_len <= sum <= 32767 * frame_len,
    ensures
        -32768 <= div_toward_zero(sum, channels) <= 32767,
{
    if sum >= 0 {
        assert(sum <= 32767 * channels) by (nonlinear_arith)
            requires
                sum <= 32767 * frame_len,
                frame_len <= channels,
        ;
        lemma_div_is_ordered(sum, 32767 * channels, channels);
        lemma_div_multiples_vanish(32767, channels);
        lemma_div_pos_is_pos(sum, channels);
    } else {
        assert(-sum <= 32768 * channels) by (nonlinear_arith)
            requires
                -32768 * frame_len <= sum,
                frame_len <= channels,
        ;
        lemma_div_is_ordered(-sum, 32768 * channels, channels);
        lemma_div_multiples_vanish(32768, channels);
        lemma_div_pos_is_pos(-sum, channels);
    }
}

/// Frames tile the buffer: every frame before the last is full, and the
/// frames' count is `downmix_len`.
pub proof fn lemma_frame_layout(len: int, channels: int, frame: int)
    requires
        len >= 0,
        channels > 0,
        0 <= frame < downmix_len(len, channels),
    ensures
        0 <= frame * channels < len,
        frame * channels < frame_end(len, channels, frame) <= len,
        frame_end(len, channels, frame) - frame * channels <= channels,
        frame_end(len, channels, frame) == len <==> frame + 1 == downmix_len(len, channels),
{
    lemma_fundamental_div_mod(len, channels);
    let q = len / channels;
    let r = len % channels;
    assert(0 <= r < channels) by {
        lemma_mod_pos_bound(len, channels);
    }
    assert(len == channels * q + r);
    assert(q >= 0) by {
        lemma_div_pos_is_pos(len, channels);
    }
    assert(frame * channels >= 0) by (nonlinear_arith)
        requires
            frame >= 0,
            channels > 0,
    ;
    assert((frame + 1) * channels == frame * channels + channels) by (nonlinear_arith);
    if frame < q {
        assert((frame + 1) * channels <= q * channels) by (nonlinear_arith)
            requires
                frame + 1 <= q,
                channels > 0,
        ;
        assert(q * channels == channels * q) by (nonlinear_arith);
        if frame + 1 == q && r == 0 {
            assert((frame + 1) * channels == len);
        } else if frame + 1 == q {
            assert((frame + 1) * channels < len);
        } else {
            assert((frame + 2) * channels <= q * channels) by (nonlinear_arith)
                requires
                    frame + 2 <= q,
                    channels > 0,
            ;
            assert((frame + 2) * channels == (frame + 1) * channels + channels)
                by (nonlinear_arith);
        }
    } else {
        assert(frame == q && r != 0);
        assert(frame * channels == channels * q) by (nonlinear_arith)
            requires
                frame == q,
        ;
    }
}

/// Mixes interleaved samples down to one channel.
///
/// With more than one channel each output sample is the sum of one frame
/// over the channel count, rounded toward zero; a trailing partial frame is
/// summed as it is and divided by the full channel count. With one channel
/// (or none) the samples come back unchanged.
pub fn downmix(samples: &Vec<i16>, channels: u16) -> (mono: Vec<i16>)
    ensures
        mono@ == downmix_spec(samples@, channels as int),
{
    if channels <= 1 {
        return samples.clone();
    }
    let ch: usize = channels as usize;
    let len: usize = samples.len();
    let mut mono: Vec<i16> = Vec::new();
    let mut start: usize = 0;
    let ghost frames = downmix_len(len as int, ch as int);
    proof {
        lemma_fundamental_div_mod(len as int, ch as int);
        lemma_mod_pos_bound(len as int, ch as int);
        lemma_div_pos_is_pos(len as int, ch as int);
        if frames == 0 {
            assert(len / ch == 0 && len % ch == 0);
            assert(len == 0) by (nonlinear_arith)
                requires
                    len as int == (ch as int) * ((len as int) / (ch as int)) + (len as int) % (
                    ch as int),
                    (len as int) / (ch as int) == 0,
                    (len as int) % (ch as int) == 0,
            ;
        }
    }
    while start < len
        invariant
            ch == channels,
            ch > 1,
            len == samples.len(),
            frames == downmix_len(len as int, ch as int),
            0 <= mono.len() <= frames,
            start <= len,
            start < len ==> start == mono.len() * ch && mono.len() < frames,
            start == len ==> mono.len() == frames,
            forall|j: int|
                0 <= j < mono.len() ==> mono[j] == downmix_sample(samples@, ch as int, j) as i16,
        decreases len - start,
    {
        let ghost frame = mono.len() as int;
        proof {
            lemma_frame_layout(len as int, ch as int, frame);
        }
        let end: usize = if len - start < ch {
            len
        } else {
            start + ch
        };
        assert(end == frame_end(len as int, ch as int, frame)) by {
            assert((frame + 1) * ch == frame * ch + ch) by (nonlinear_arith);
        }
        let mut sum: i64 = 0;
        let mut k: usize = start;
        while k < end
            invariant
                start <= k <= end <= len,
                len == samples.len(),
                end - start <= ch,
                ch <= 65535,
                sum == frame_sum(samples@, start as int, k as int),
            decreases end - k,
        {
            proof {
                lemma_frame_sum_bounds(samples@, start as int, k as int);
                assert(-32768 * (k - start) >= -32768 * 65535) by (nonlinear_arith)
                    requires
                        0 <= k - start <= 65535,
                ;
                assert(32767 * (k - start) <= 32767 * 65535) by (nonlinear_arith)
                    requires
                        0 <= k - start <= 65535,
                ;
            }
            sum = sum + samples[k] as i64;
            k = k + 1;
        }
        proof {
            lemma_frame_sum_bounds(samples@, start as int, end as int);
            lemma_mean_in_range(sum as int, end - start, ch as int);
        }
        let mean: i64 = sum / (ch as i64);
        mono.push(mean as i16);
        start = end;
        proof {
            if start < len {
                assert((frame + 1) * ch == frame * ch + ch) by (nonlinear_arith);
            }
        }
    }
    assert(mono@ =~= downmix_spec(samples@, channels as int));
    mono
}

/// An output index of the resampler starts from a valid input index.
pub proof fn lemma_source_index_in_range(len: int, i: int, src_rate: int, target_rate: int)
    requires
        len >= 0,
        src_rate > 0,
        target_rate > 0,
        0 <= i < resampled_len(len, src_rate, target_rate),
    ensures
        0 <= source_index(i, src_rate, target_rate) < len,
        0 <= source_offset(i, src_rate, target_rate) < target_rate,
{
    // (i + 1) * src_rate <= len * target_rate, hence i * src_rate < len * target_rate
    let n = len * target_rate;
    lemma_fundamental_div_mod(n, src_rate);
    lemma_mod_pos_bound(n, src_rate);
    assert((i + 1) * src_rate <= n) by (nonlinear_arith)
        requires
            i + 1 <= n / src_rate,
            src_rate > 0,
            n == src_rate * (n / src_rate) + n % src_rate,
            0 <= n % src_rate,
    ;
    assert(i * src_rate < len * target_rate) by (nonlinear_arith)
        requires
            (i + 1) * src_rate <= n,
            n == len * target_rate,
            src_rate > 0,
    ;
    assert(i * src_rate >= 0) by (nonlinear_arith)
        requires
            i >= 0,
            src_rate > 0,
    ;
    lemma_div_pos_is_pos(i * src_rate, target_rate);
    lemma_mod_pos_bound(i * src_rate, target_rate);
    assert(len * target_rate == target_rate * len) by (nonlinear_arith);
    lemma_multiply_divide_lt(i * src_rate, target_rate, len);
}

/// Interpolating between two 16-bit samples gives a value between them.
pub proof fn lemma_interpolate_between(a: int, b: int, num: int, den: int)
    requires
        0 <= num < den,
    ensures
        a <= b ==> a <= interpolate(a, b, num, den) <= b,
        b <= a ==> b <= interpolate(a, b, num, den) <= a,
        num == 0 ==> interpolate(a, b, num, den) == a,
{
    if a <= b {
        let p = (b - a) * num;
        assert(0 <= p <= (b - a) * den) by (nonlinear_arith)
            requires
                p == (b - a) * num,
                0 <= num < den,
                a <= b,
        ;
        lemma_div_pos_is_pos(p, den);
        lemma_div_is_ordered(p, (b - a) * den, den);
        lemma_div_multiples_vanish(b - a, den);
        assert((b - a) * den == den * (b - a)) by (nonlinear_arith);
        if num == 0 {
            assert(p == 0) by (nonlinear_arith)
                requires
                    p == (b - a) * num,
                    num == 0,
            ;
            lemma_div_of0(den);
        }
    } else {
        let p = (b - a) * num;
        assert(0 <= -p <= (a - b) * den) by (nonlinear_arith)
            requires
                p == (b - a) * num,
                0 <= num < den,
                b < a,
        ;
        lemma_div_pos_is_pos(-p, den);
        lemma_div_is_ordered(-p, (a - b) * den, den);
        lemma_div_multiples_vanish(a - b, den);
        assert((a - b) * den == den * (a - b)) by (nonlinear_arith);
        if num == 0 {
            assert(p == 0) by (nonlinear_arith)
                requires
                    p == (b - a) * num,
                    num == 0,
            ;
            lemma_div_of0(den);
        }
    }
}

/// Resamples mono samples from `src_rate` to `target_rate` by linear
/// interpolation, with no filtering.
///
/// Output sample `i` lies at input position `i * src_rate / target_rate`: it
/// is the input sample at the integer part of that position, moved toward
/// its right neighbour by the fractional part (rounded toward zero). The
/// last input sample is its own right neighbour.
pub fn resample(samples: &Vec<i16>, src_rate: u32, target_rate: u32) -> (out: Vec<i16>)
    requires
        src_rate > 0,
        resampled_len(samples.len() as int, src_rate as int, target_rate as int) <= usize::MAX,
    ensures
        out@ == resample_spec(samples@, src_rate as int, target_rate as int),
        out@.len() == resampled_len(samples.len() as int, src_rate as int, target_rate as int),
        src_rate == target_rate ==> out@ == samples@,
{
    proof {
        if src_rate == target_rate {
            lemma_resample_same_rate_is_identity(samples@, src_rate as int);
        }
    }
    let len: usize = samples.len();
    let mut out: Vec<i16> = Vec::new();
    if target_rate == 0 {
        assert(len * 0 == 0);
        assert(0int / (src_rate as int) == 0) by {
            lemma_div_of0(src_rate as int);
        }
        assert(out@ =~= resample_spec(samples@, src_rate as int, target_rate as int));
        return out;
    }
    assert(len * target_rate <= 0xffff_ffff_ffff_ffff * 0xffff_ffff) by (nonlinear_arith)
        requires
            len <= 0xffff_ffff_ffff_ffff,
            target_rate <= 0xffff_ffff,
    ;
    let new_len: usize = ((len as u128 * target_rate as u128) / (src_rate as u128)) as usize;
    let mut i: usize = 0;
    while i < new_len
        invariant
            i <= new_len,
            len == samples.len(),
            src_rate > 0,
            target_rate > 0,
            new_len == resampled_len(len as int, src_rate as int, target_rate as int),
            out.len() == i,
            forall|j: int|
                0 <= j < i ==> out[j] == resampled_sample(
                    samples@,
                    j,
                    src_rate as int,
                    target_rate as int,
                ),
        decreases new_len - i,
    {
        proof {
            lemma_source_index_in_range(len as int, i as int, src_rate as int, target_rate as int);
            assert(i * src_rate <= 0xffff_ffff_ffff_ffff * 0xffff_ffff) by (nonlinear_arith)
                requires
                    i <= 0xffff_ffff_ffff_ffff,
                    src_rate <= 0xffff_ffff,
            ;
        }
        let pos: u128 = i as u128 * src_rate as u128;
        let idx: usize = (pos / (target_rate as u128)) as usize;
        let offset: i64 = (pos % (target_rate as u128)) as i64;
        let a: i16 = samples[idx];
        let b: i16 = if idx + 1 < len {
            samples[idx + 1]
        } else {
            a
        };
        let diff: i64 = b as i64 - a as i64;
        proof {
            lemma_interpolate_between(a as int, b as int, offset as int, target_rate as int);
            assert(-65535 * 0xffff_ffff <= diff * offset <= 65535 * 0xffff_ffff)
                by (nonlinear_arith)
                requires
                    -65535 <= diff <= 65535,
                    0 <= offset <= 0xffff_ffff,
            ;
        }
        let step: i64 = (diff * offset) / (target_rate as i64);
        let value: i64 = a as i64 + step;
        out.push(value as i16);
        i = i + 1;
    }
    assert(out@ =~= resample_spec(samples@, src_rate as int, target_rate as int));
    out
}

/// Resampling to the rate the samples already have changes nothing.
pub proof fn lemma_resample_same_rate_is_identity(samples: Seq<i16>, rate: int)
    requires
        rate > 0,
    ensures
        resample_spec(samples, rate, rate) == samples,
{
    let len = samples.len() as int;
    lemma_div_multiples_vanish(len, rate);
    assert(len * rate == rate * len) by (nonlinear_arith);
    assert(resampled_len(len, rate, rate) == len);
    assert forall|i: int| 0 <= i < len implies resampled_sample(samples, i, rate, rate)
        == samples[i] by {
        lemma_div_multiples_vanish(i, rate);
        lemma_mod_multiples_basic(i, rate);
        assert(i * rate == rate * i) by (nonlinear_arith);
        assert(source_index(i, rate, rate) == i);
        assert(source_offset(i, rate, rate) == 0);
        let a = samples[i];
        let b = if i + 1 < samples.len() {
            samples[i + 1]
        } else {
            a
        };
        lemma_interpolate_between(a as int, b as int, 0, rate);
    }
    assert(resample_spec(samples, rate, rate) =~= samples);
}

/// Silence stays silence: if every input sample is zero, so is every
/// downmixed sample, for any channel count.
pub proof fn lemma_downmix_of_silence_is_silence(samples: Seq<i16>, channels: int)
    requires
        channels >= 0,
        forall|k: int| 0 <= k < samples.len() ==> samples[k] == 0,
    ensures
        forall|j: int|
            0 <= j < downmix_spec(samples, channels).len() ==> downmix_spec(samples, channels)[j]
                == 0,
{
    if channels > 1 {
        let len = samples.len() as int;
        assert forall|j: int| 0 <= j < downmix_spec(samples, channels).len() implies downmix_spec(
            samples,
            channels,
        )[j] == 0 by {
            lemma_frame_layout(len, channels, j);
            lemma_frame_sum_zero(samples, j * channels, frame_end(len, channels, j));
            lemma_div_of0(channels);
        }
    }
}

/// Every sample the resampler puts out lies between two input samples, so
/// silence resamples to silence.
pub proof fn lemma_resample_of_silence_is_silence(
    samples: Seq<i16>,
    src_rate: int,
    target_rate: int,
)
    requires
        src_rate > 0,
        target_rate > 0,
        forall|k: int| 0 <= k < samples.len() ==> samples[k] == 0,
    ensures
        forall|j: int|
            0 <= j < resample_spec(samples, src_rate, target_rate).len() ==> resample_spec(
                samples,
                src_rate,
                target_rate,
            )[j] == 0,
{
    let len = samples.len() as int;
    assert forall|j: int|
        0 <= j < resample_spec(samples, src_rate, target_rate).len() implies resample_spec(
        samples,
        src_rate,
        target_rate,
    )[j] == 0 by {
        lemma_source_index_in_range(len, j, src_rate, target_rate);
        lemma_interpolate_between(0, 0, source_offset(j, src_rate, target_rate), target_rate);
    }
}

/// Whether `raw` can be brought to `target_rate`: it is at that rate
/// already, or it has a sample rate and the resampled audio is not longer
/// than a buffer can be.
pub open spec fn can_normalize(raw: PcmBuffer, target_rate: u32) -> bool {
    raw.sample_rate == target_rate || (raw.sample_rate > 0 && resampled_len(
        raw.samples@.len() as int,
        raw.sample_rate as int,
        target_rate as int,
    ) <= usize::MAX)
}

/// Whether `raw` can be brought to `target_rate`.
pub fn is_normalizable(raw: &PcmBuffer, target_rate: u32) -> (ok: bool)
    ensures
        ok == can_normalize(*raw, target_rate),
{
    if raw.sample_rate == target_rate {
        return true;
    }
    if raw.sample_rate == 0 {
        return false;
    }
    let len: usize = raw.samples.len();
    assert(len * target_rate <= 0xffff_ffff_ffff_ffff * 0xffff_ffff) by (nonlinear_arith)
        requires
            len <= 0xffff_ffff_ffff_ffff,
            target_rate <= 0xffff_ffff,
    ;
    let wide: u128 = (len as u128 * target_rate as u128) / (raw.sample_rate as u128);
    wide <= usize::MAX as u128
}

/// Brings raw audio to mono at `target_rate`, or gives `None` for audio
/// that cannot be: audio at another rate that has no sample rate, or whose
/// resampled form would be longer than a buffer can be.
pub fn try_normalize(raw: PcmBuffer, target_rate: u32) -> (out: Option<PcmBuffer>)
    ensures
        out is Some <==> can_normalize(raw, target_rate),
        out matches Some(buffer) ==> buffer.is_normalized(target_rate) && buffer.samples@
            == normalize_spec(
            raw.samples@,
            raw.channels as int,
            raw.sample_rate as int,
            target_rate as int,
        ),
{
    if is_normalizable(&raw, target_rate) {
        Some(normalize(raw, target_rate))
    } else {
        None
    }
}

/// Brings raw audio to mono at `target_rate`.
///
/// The samples are mixed down if there is more than one channel, then
/// resampled if the rate differs from `target_rate`. Audio that is already
/// mono at the target rate passes through sample for sample; empty input
/// gives empty output.
pub fn normalize(raw: PcmBuffer, target_rate: u32) -> (out: PcmBuffer)
    requires
        can_normalize(raw, target_rate),
    ensures
        out.is_normalized(target_rate),
        out.samples@ == normalize_spec(
            raw.samples@,
            raw.channels as int,
            raw.sample_rate as int,
            target_rate as int,
        ),
        raw.channels <= 1 && raw.sample_rate == target_rate ==> out.samples@ == raw.samples@,
        raw.samples@.len() == 0 ==> out.samples@.len() == 0,
{
    proof {
        if raw.samples@.len() == 0 {
            lemma_normalize_of_nothing(
                raw.samples@,
                raw.channels as int,
                raw.sample_rate as int,
                target_rate as int,
            );
        }
    }
    let mono = if raw.channels > 1 {
        downmix(&raw.samples, raw.channels)
    } else {
        raw.samples
    };
    let samples = if raw.sample_rate != target_rate {
        proof {
            lemma_downmix_len_at_most(raw.samples@.len() as int, raw.channels as int);
            let full = raw.samples@.len() as int;
            let short = mono@.len() as int;
            assert(short * target_rate <= full * target_rate) by (nonlinear_arith)
                requires
                    short <= full,
                    target_rate >= 0,
            ;
            lemma_div_is_ordered(
                short * target_rate,
                full * target_rate,
                raw.sample_rate as int,
            );
        }
        resample(&mono, raw.sample_rate, target_rate)
    } else {
        mono
    };
    PcmBuffer { samples, sample_rate: target_rate, channels: 1 }
}

/// Normalising no samples gives no samples.
pub proof fn lemma_normalize_of_nothing(
    samples: Seq<i16>,
    channels: int,
    src_rate: int,
    target_rate: int,
)
    requires
        samples.len() == 0,
        src_rate != target_rate ==> src_rate > 0,
    ensures
        normalize_spec(samples, channels, src_rate, target_rate).len() == 0,
{
    if channels > 1 {
        lemma_div_of0(channels);
        lemma_small_mod(0, channels as nat);
    }
    let mono = downmix_spec(samples, channels);
    assert(mono.len() == 0);
    if src_rate != target_rate {
        assert(0 * target_rate == 0);
        lemma_div_of0(src_rate);
    }
}

/// Mixing down never lengthens the buffer.
pub proof fn lemma_downmix_len_at_most(len: int, channels: int)
    requires
        len >= 0,
    ensures
        downmix_spec_len(len, channels) <= len,
{
    if channels > 1 {
        lemma_fundamental_div_mod(len, channels);
        lemma_mod_pos_bound(len, channels);
        lemma_div_pos_is_pos(len, channels);
        let q = len / channels;
        let r = len % channels;
        assert(q <= channels * q) by (nonlinear_arith)
            requires
                q >= 0,
                channels > 1,
        ;
    }
}

/// Length of `downmix_spec` for a buffer of `len` samples.
pub open spec fn downmix_spec_len(len: int, channels: int) -> int {
    if channels <= 1 {
        len
    } else {
        downmix_len(len, channels)
    }
}

/// The largest sample of 16-bit PCM; samples are scaled so that full scale
/// becomes this value.
pub const PCM_FULL_SCALE: i16 = 32767;

/// `value`, or the nearer of `-PCM_FULL_SCALE` and `PCM_FULL_SCALE` where it lies outside.
pub open spec fn clamp_to_full_scale(value: int) -> int {
    if value < -PCM_FULL_SCALE {
        -PCM_FULL_SCALE
    } else if value > PCM_FULL_SCALE {
        PCM_FULL_SCALE as int
    } else {
        value
    }
}

/// A sample of `bits` bits as 16-bit PCM: scaled by full scale over
/// `2^(bits - 1)`, rounded toward zero, and kept within full scale.
pub open spec fn pcm16_spec(sample: int, bits: int) -> int {
    clamp_to_full_scale(div_toward_zero(sample * PCM_FULL_SCALE, pow2((bits - 1) as nat) as int))
}

/// `2^(bits - 1)`, the magnitude that full scale has in samples of `bits` bits.
pub fn full_scale_of(bits: u16) -> (scale: i64)
    requires
        1 <= bits <= 32,
    ensures
        scale == pow2((bits - 1) as nat),
        1 <= scale <= 0x8000_0000,
{
    let mut scale: i64 = 1;
    let mut k: u16 = 1;
    proof {
        lemma_pow2_unfold(1);
        vstd::arithmetic::power2::lemma2_to64();
    }
    while k < bits
        invariant
            1 <= k <= bits <= 32,
            scale == pow2((k - 1) as nat),
            1 <= scale <= 0x8000_0000,
        decreases bits - k,
    {
        proof {
            lemma_pow2_unfold(k as nat);
            vstd::arithmetic::power2::lemma2_to64();
            if k < 32 {
                lemma_pow2_strictly_increases(k as nat, 32);
            }
            lemma_pow2_strictly_increases((k - 1) as nat, 31);
        }
        scale = scale * 2;
        k = k + 1;
    }
    scale
}

/// Converts an integer sample of `bits_per_sample` bits to 16-bit PCM.
pub fn pcm16_from_int(sample: i32, bits_per_sample: u16) -> (pcm: i16)
    requires
        1 <= bits_per_sample <= 32,
    ensures
        pcm == pcm16_spec(sample as int, bits_per_sample as int),
        -PCM_FULL_SCALE <= pcm <= PCM_FULL_SCALE,
{
    let scale: i64 = full_scale_of(bits_per_sample);
    assert(-0x8000_0000 * 32767 <= sample * 32767 <= 0x8000_0000 * 32767) by (nonlinear_arith)
        requires
            -0x8000_0000 <= sample <= 0x7fff_ffff,
    ;
    let scaled: i64 = (sample as i64 * 32767) / scale;
    if scaled < -32767 {
        -32767
    } else if scaled > 32767 {
        32767
    } else {
        scaled as i16
    }
}

/// Converts integer samples of `bits_per_sample` bits to 16-bit PCM, one by one.
pub fn pcm16_from_ints(samples: &Vec<i32>, bits_per_sample: u16) -> (pcm: Vec<i16>)
    requires
        1 <= bits_per_sample <= 32,
    ensures
        pcm.len() == samples.len(),
        forall|i: int|
            0 <= i < pcm.len() ==> pcm[i] == pcm16_spec(samples[i] as int, bits_per_sample as int),
{
    let mut pcm: Vec<i16> = Vec::new();
    let mut i: usize = 0;
    while i < samples.len()
        invariant
            i <= samples.len(),
            1 <= bits_per_sample <= 32,
            pcm.len() == i,
            forall|k: int|
                0 <= k < i ==> pcm[k] == pcm16_spec(samples[k] as int, bits_per_sample as int),
        decreases samples.len() - i,
    {
        pcm.push(pcm16_from_int(samples[i], bits_per_sample));
        i = i + 1;
    }
    pcm
}

/// Why a recording cannot be taken in.
#[derive(Clone, Copy, Debug, PartialEq, Eq, Structural)]
pub enum RecordingError {
    /// The recording holds no sample.
    NoSamples,
    /// The recording has no sample rate, or is too long to be resampled.
    InvalidAudio,
}

impl RecordingError {
    /// The text of `message`.
    pub open spec fn message_spec(&self) -> Seq<char> {
        match self {
            RecordingError::NoSamples => "Audio file contains no samples"@,
            RecordingError::InvalidAudio => "Audio cannot be brought to the working sample rate"@,
        }
    }

    /// What went wrong, in words.
    pub fn message(&self) -> (text: String)
        ensures
            text@ == self.message_spec(),
    {
        match self {
            RecordingError::NoSamples => String::from_str("Audio file contains no samples"),
            RecordingError::InvalidAudio => String::from_str(
                "Audio cannot be brought to the working sample rate",
            ),
        }
    }
}

/// What becomes of a recording that is taken in: its samples as mono at the
/// working rate, or the reason why it is refused. A recording without
/// samples is refused before anything else is looked at.
pub open spec fn prepared_recording(raw: PcmBuffer) -> Result<Seq<i16>, RecordingError> {
    if raw.samples@.len() == 0 {
        Err(RecordingError::NoSamples)
    } else if !can_normalize(raw, TARGET_SAMPLE_RATE) {
        Err(RecordingError::InvalidAudio)
    } else {
        Ok(
            normalize_spec(
                raw.samples@,
                raw.channels as int,
                raw.sample_rate as int,
                TARGET_SAMPLE_RATE as int,
            ),
        )
    }
}

/// Brings a recording to the form in which it is transcribed and kept:
/// mono at the working rate. A recording without samples is an error, and
/// so is one that cannot be brought to the working rate.
pub fn prepare_recording(raw: PcmBuffer) -> (out: Result<PcmBuffer, RecordingError>)
    ensures
        match prepared_recording(raw) {
            Ok(samples) => out matches Ok(buffer) && buffer.is_normalized(TARGET_SAMPLE_RATE)
                && buffer.samples@ == samples,
            Err(error) => out matches Err(e) && e == error,
        },
{
    if raw.samples.len() == 0 {
        return Err(RecordingError::NoSamples);
    }
    match try_normalize(raw, TARGET_SAMPLE_RATE) {
        Some(buffer) => Ok(buffer),
        None => Err(RecordingError::InvalidAudio),
    }
}

} // verus!
