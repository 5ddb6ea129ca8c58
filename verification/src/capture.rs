//! System-audio capture: formats, errors, and the PCM conversions that turn
//! what a capture backend delivers into interleaved 16-bit frames.

use crate::binary64::{quotient_exp, quotient_mant, quotient_parts, round53, round53_i128, round53_signed, round53_u128, two53};
use crate::binary64::{
    lemma_quotient_error, lemma_round53_error, lemma_round53_mono, lemma_round53_signed_error, lemma_round53_signed_exact,
    lemma_round53_signed_mono,
};
use vstd::arithmetic::mul::lemma_mul_inequality;
use vstd::arithmetic::div_mod::{lemma_fundamental_div_mod, lemma_div_is_ordered, lemma_div_multiples_vanish, lemma_div_pos_is_pos};
use vstd::arithmetic::power2::{lemma_pow2_pos, pow2};
use vstd::prelude::*;

verus! {

/// Why a capture could not be started or kept running.
#[derive(Debug)]
pub enum CaptureError {
    NoDevice,
    UnsupportedConfig { wanted: u32, channels: u16 },
    Backend(String),
    UnsupportedPlatform,
}

/// The PCM format that a capture is asked to deliver.
#[derive(Clone, Copy, Debug, PartialEq, Eq, Structural)]
pub struct CaptureFormat {
    pub sample_rate: u32,
    pub channels: u16,
}

impl CaptureFormat {
    /// The format AirPlay expects: 44.1 kHz, stereo.
    pub fn airplay_default() -> (f: CaptureFormat)
        ensures
            f.sample_rate == 44_100,
            f.channels == 2,
    {
        CaptureFormat { sample_rate: 44_100, channels: 2 }
    }
}

/// A block of captured audio: interleaved 16-bit PCM.
#[derive(Debug)]
pub struct CapturedFrame {
    pub samples: Vec<i16>,
    pub channels: u16,
    pub sample_rate: u32,
}

/// A running capture; dropping it, or calling `stop`, ends it.
pub trait Capture: Send + Sync {
    /// The name of the device being captured.
    fn name(&self) -> &str;

    /// Ends the capture.
    fn stop(self: Box<Self>);
}

/// Refuses any channel count but two: the backends deliver stereo only.
pub fn require_stereo(fmt: CaptureFormat) -> (res: Result<(), CaptureError>)
    ensures
        res is Ok <==> fmt.channels == 2,
        res matches Err(e) ==> e == (CaptureError::UnsupportedConfig {
            wanted: fmt.sample_rate,
            channels: fmt.channels,
        }),
{
    if fmt.channels != 2 {
        Err(CaptureError::UnsupportedConfig { wanted: fmt.sample_rate, channels: fmt.channels })
    } else {
        Ok(())
    }
}

/// What a capture thread does after waiting for the device's event.
#[derive(Clone, Copy, Debug, PartialEq, Eq, Structural)]
pub enum CaptureWait {
    /// The device signalled: read what it has.
    Continue,
    /// The wait timed out because the capture was asked to stop: end quietly.
    Finish,
    /// The wait timed out while the capture should run: the device stopped
    /// answering, and the capture fails.
    Fail,
}

/// The capture thread's decision after one wait for the device's event.
pub fn after_event_wait(signalled: bool, running: bool) -> (next: CaptureWait)
    ensures
        next == (if signalled {
            CaptureWait::Continue
        } else if running {
            CaptureWait::Fail
        } else {
            CaptureWait::Finish
        }),
{
    if signalled {
        CaptureWait::Continue
    } else if running {
        CaptureWait::Fail
    } else {
        CaptureWait::Finish
    }
}

// ---------------------------------------------------------------------------
// Linear resampling
// ---------------------------------------------------------------------------

/// Division of `x` by `y > 0`, rounded toward zero.
pub open spec fn trunc_div(x: int, y: int) -> int {
    if x >= 0 {
        x / y
    } else {
        -((-x) / y)
    }
}

/// `x` limited to the range of a 16-bit sample.
pub open spec fn clamp_i16(x: int) -> int {
    if x < -32768 {
        -32768
    } else if x > 32767 {
        32767
    } else {
        x
    }
}

/// How many frames a block of `frames` frames becomes when taken from rate
/// `src` to rate `dst`: `frames * dst / src`, and at least one.
pub open spec fn resampled_frames(frames: nat, src: nat, dst: nat) -> nat {
    if frames * dst / src >= 1 {
        frames * dst / src
    } else {
        1
    }
}

/// The denominator of source positions for rates `src` and `dst`: the
/// binary64 step `src / dst` is `quotient_mant(src, dst) / pos_scale(src, dst)`.
pub open spec fn pos_scale(src: nat, dst: nat) -> nat {
    pow2(quotient_exp(src, dst))
}

/// The source position of output frame `d`, over `pos_scale(src, dst)`:
/// the binary64 product of `d` and the binary64 step `src / dst`.
pub open spec fn source_pos(d: nat, src: nat, dst: nat) -> nat {
    round53(round53(d) * quotient_mant(src, dst))
}

/// The source frame that output frame `d` starts from: the integer part of
/// its source position.
pub open spec fn source_frame(d: nat, src: nat, dst: nat) -> nat {
    source_pos(d, src, dst) / pos_scale(src, dst)
}

/// The point at fraction `fr / den` of the way from `a` to `b`, computed as
/// `a + (b - a) * frac` with each operation rounded to the nearest double,
/// then limited to the 16-bit range and rounded toward zero.
pub open spec fn interpolated(a: int, b: int, fr: int, den: int) -> int {
    let w = round53_signed((b - a) * fr);
    let v = round53_signed(a * den + w);
    clamp_i16(trunc_div(v, den))
}

/// Sample `ch` of output frame `d`, as binary64 arithmetic computes it.
/// Output frame `d` lies at source position `p / den` (see [`source_pos`]),
/// between source frame `i` (its integer part) and the next one (or `i`
/// itself at the end); with `a`, `b` the two samples and `fr / den` the
/// fraction, the value is `a + (b - a) * frac`, each operation rounded to
/// the nearest double, then limited to the 16-bit range and rounded toward
/// zero.
pub open spec fn resample_at(input: Seq<i16>, c: nat, src: nat, dst: nat, d: int, ch: int) -> int {
    let frames = input.len() / c;
    let den = pos_scale(src, dst) as int;
    let p = source_pos(d as nat, src, dst) as int;
    let i = p / den;
    let fr = p % den;
    let j = if i + 1 <= frames - 1 {
        i + 1
    } else {
        frames - 1
    };
    interpolated(input[i * c + ch] as int, input[j * c + ch] as int, fr, den)
}

/// The result of resampling interleaved `input` with `c` channels from rate
/// `src` to rate `dst`. Equal rates, or no input, leave the input as it is.
/// A target rate of zero yields one silent frame.
pub open spec fn resampled(input: Seq<i16>, c: nat, src: nat, dst: nat) -> Seq<i16> {
    if src == dst || input.len() == 0 {
        input
    } else if dst == 0 {
        Seq::new(c, |k: int| 0i16)
    } else {
        Seq::new(
            resampled_frames(input.len() / c, src, dst) * c,
            |k: int| resample_at(input, c, src, dst, k / (c as int), k % (c as int)) as i16,
        )
    }
}

/// The inputs on which resampling is defined: a non-trivial conversion needs
/// channels, a non-zero source rate and at least one whole frame, its
/// intermediate products must fit the machine's integers, and every output
/// frame must start inside the input.
pub open spec fn resample_defined(input_len: nat, c: nat, src: nat, dst: nat) -> bool {
    (src != dst && input_len > 0) ==> {
        &&& c > 0
        &&& src > 0
        &&& input_len >= c
        &&& (input_len / c) * dst <= u64::MAX
        &&& resampled_frames(input_len / c, src, dst) * c <= usize::MAX
        &&& dst > 0 ==> forall|d: nat|
            d < resampled_frames(input_len / c, src, dst) ==> #[trigger] source_frame(d, src, dst)
                < input_len / c
    }
}

/// The source position of output frame `d` (see [`source_pos`]), from the
/// significand `m` of the step.
fn source_position(d: u64, m: u128) -> (p: u128)
    requires
        m <= two53(),
    ensures
        p == round53(round53(d as nat) * (m as nat)),
        p < 0x100_0000_0000_0000_0000_0000_0000_0000,
{
    let df = round53_u128(d as u128);
    assert(df * m <= 2 * 0xffff_ffff_ffff_ffff * 0x20_0000_0000_0000) by (nonlinear_arith)
        requires
            df <= 2 * d,
            d <= 0xffff_ffff_ffff_ffff,
            m <= 0x20_0000_0000_0000,
    ;
    let prod: u128 = df * m;
    round53_u128(prod)
}

proof fn lemma_interleaved_index(i: int, c: int, ch: int, frames: int, len: int)
    requires
        0 <= i < frames,
        0 <= ch < c,
        frames == len / c,
        c > 0,
        len >= 0,
    ensures
        0 <= i * c + ch < len,
{
    assert(0 <= i * c + ch < len) by (nonlinear_arith)
        requires
            0 <= i < frames,
            0 <= ch < c,
            frames == len / c,
            c > 0,
            len >= 0,
    ;
}

proof fn lemma_frame_channel(d: int, c: int, ch: int)
    requires
        d >= 0,
        0 <= ch < c,
    ensures
        (d * c + ch) / c == d,
        (d * c + ch) % c == ch,
{
    vstd::arithmetic::div_mod::lemma_fundamental_div_mod_converse(d * c + ch, c, d, ch);
}

fn copy_samples(input: &[i16]) -> (out: Vec<i16>)
    ensures
        out@ == input@,
{
    let mut out: Vec<i16> = Vec::new();
    for i in 0..input.len()
        invariant
            out@ == input@.take(i as int),
    {
        out.push(input[i]);
        assert(input@.take(i + 1) =~= input@.take(i as int).push(input@[i as int]));
    }
    assert(input@.take(input@.len() as int) =~= input@);
    out
}

/// Later output frames start at the same or a later source frame.
pub proof fn lemma_source_frame_mono(d1: nat, d2: nat, src: nat, dst: nat)
    requires
        d1 <= d2,
    ensures
        source_frame(d1, src, dst) <= source_frame(d2, src, dst),
{
    let m = quotient_mant(src, dst);
    lemma_round53_mono(d1, d2);
    lemma_mul_inequality(round53(d1) as int, round53(d2) as int, m as int);
    lemma_round53_mono(round53(d1) * m, round53(d2) * m);
    lemma_pow2_pos(quotient_exp(src, dst));
    lemma_div_is_ordered(
        source_pos(d1, src, dst) as int,
        source_pos(d2, src, dst) as int,
        pos_scale(src, dst) as int,
    );
}

/// The source position of output frame `d` is the exact position
/// `d * src / dst` up to a relative error of `2^-50`.
pub proof fn lemma_source_pos_accuracy(d: nat, src: nat, dst: nat)
    requires
        0 < src < 0x1_0000_0000,
        0 < dst < 0x1_0000_0000,
    ensures
        0x4_0000_0000_0000 * (source_pos(d, src, dst) * dst - d * src * pos_scale(src, dst)) <= d
            * src * pos_scale(src, dst),
        0x4_0000_0000_0000 * (d * src * pos_scale(src, dst) - source_pos(d, src, dst) * dst) <= d
            * src * pos_scale(src, dst),
{
    let k = pos_scale(src, dst) as int;
    let n = (src * pos_scale(src, dst)) as int;
    let dd = d as int;
    let big_d = round53(d) as int;
    let m = quotient_mant(src, dst) as int;
    let pp = big_d * m;
    let p = source_pos(d, src, dst) as int;
    let t = two53() as int;
    lemma_round53_error(d);
    lemma_quotient_error(src, dst);
    lemma_round53_error((round53(d) * quotient_mant(src, dst)) as nat);
    lemma_pow2_pos(quotient_exp(src, dst));
    assert(n >= 0 && m >= 0 && big_d >= 0 && dd >= 0);
    assert(t == 0x20_0000_0000_0000);
    let e_d = big_d - dd;
    let e_m = m * (dst as int) - n;
    let e_p = p - pp;
    assert(-dd <= t * e_d <= dd);
    assert(-n <= t * e_m <= n);
    assert(-pp <= t * e_p <= pp);
    assert(p * (dst as int) - dd * n == e_p * (dst as int) + big_d * e_m + e_d * n) by (nonlinear_arith)
        requires
            e_d == big_d - dd,
            e_m == m * (dst as int) - n,
            e_p == p - pp,
            pp == big_d * m,
    ;
    // the three error terms, each scaled by 2^53
    assert(big_d <= 2 * dd) by (nonlinear_arith)
        requires
            t * (big_d - dd) <= dd,
            t == 0x20_0000_0000_0000,
            dd >= 0,
    ;
    assert(m * (dst as int) <= 2 * n) by (nonlinear_arith)
        requires
            t * e_m <= n,
            e_m == m * (dst as int) - n,
            t == 0x20_0000_0000_0000,
            n >= 0,
    ;
    assert(-(pp * (dst as int)) <= t * (e_p * (dst as int)) <= pp * (dst as int)) by (nonlinear_arith)
        requires
            -pp <= t * e_p <= pp,
            dst > 0,
    ;
    assert(pp * (dst as int) <= 4 * (dd * n)) by (nonlinear_arith)
        requires
            pp == big_d * m,
            m * (dst as int) <= 2 * n,
            big_d <= 2 * dd,
            big_d >= 0,
            m >= 0,
            n >= 0,
            dst > 0,
    ;
    assert(-(big_d * n) <= t * (big_d * e_m) <= big_d * n) by (nonlinear_arith)
        requires
            -n <= t * e_m <= n,
            big_d >= 0,
    ;
    assert(big_d * n <= 2 * (dd * n)) by (nonlinear_arith)
        requires
            big_d <= 2 * dd,
            n >= 0,
    ;
    assert(-(dd * n) <= t * (e_d * n) <= dd * n) by (nonlinear_arith)
        requires
            -dd <= t * e_d <= dd,
            n >= 0,
    ;
    assert(dd * src * pos_scale(src, dst) == dd * n) by (nonlinear_arith)
        requires
            n == src * pos_scale(src, dst),
    ;
    assert(dd * n >= 0) by (nonlinear_arith)
        requires
            dd >= 0,
            n >= 0,
    ;
    assert(t * (e_p * (dst as int) + big_d * e_m + e_d * n) == t * (e_p * (dst as int)) + t * (
    big_d * e_m) + t * (e_d * n)) by (nonlinear_arith);
    let tt = p * (dst as int) - dd * n;
    let x1 = t * (e_p * (dst as int));
    let x2 = t * (big_d * e_m);
    let x3 = t * (e_d * n);
    assert(tt == e_p * (dst as int) + big_d * e_m + e_d * n);
    assert(t * tt == x1 + x2 + x3) by (nonlinear_arith)
        requires
            tt == e_p * (dst as int) + big_d * e_m + e_d * n,
            x1 == t * (e_p * (dst as int)),
            x2 == t * (big_d * e_m),
            x3 == t * (e_d * n),
    ;
    assert(t * tt <= 7 * (dd * n));
    assert(-(7 * (dd * n)) <= t * tt);
    assert(0x20_0000_0000_0000 * tt == t * tt);
    assert(0x4_0000_0000_0000 * tt <= dd * n);
    assert(-(dd * n) <= 0x4_0000_0000_0000 * tt);
    assert(d * src * pos_scale(src, dst) == dd * n);
}

/// Whether `resample_linear` may be called on an input of `input_len`
/// samples with these parameters (see [`resample_defined`]).
pub fn resample_supported(input_len: usize, channels: usize, src_rate: u32, dst_rate: u32) -> (ok:
    bool)
    ensures
        ok == resample_defined(input_len as nat, channels as nat, src_rate as nat, dst_rate as nat),
{
    if src_rate == dst_rate || input_len == 0 {
        return true;
    }
    if channels == 0 || src_rate == 0 || input_len < channels {
        return false;
    }
    let frames = input_len / channels;
    let ghost c = channels as nat;
    let ghost s = src_rate as nat;
    let ghost dd = dst_rate as nat;
    match (frames as u64).checked_mul(dst_rate as u64) {
        None => false,
        Some(p) => {
            let q = p / (src_rate as u64);
            let df: u64 = if q >= 1 {
                q
            } else {
                1
            };
            assert(df == resampled_frames(frames as nat, s, dd));
            match df.checked_mul(channels as u64) {
                None => false,
                Some(total) => {
                    if total > usize::MAX as u64 {
                        return false;
                    }
                    if dst_rate == 0 {
                        return true;
                    }
                    let (m, pk) = quotient_parts(src_rate, dst_rate);
                    let last = source_position(df - 1, m);
                    if last / pk >= frames as u128 {
                        assert(source_frame((df - 1) as nat, s, dd) >= frames);
                        return false;
                    }
                    assert forall|e: nat| e < df implies #[trigger] source_frame(e, s, dd)
                        < frames by {
                        lemma_source_frame_mono(e, (df - 1) as nat, s, dd);
                    }
                    true
                },
            }
        },
    }
}

/// Linear resampling of interleaved PCM with `channels` channels from
/// `src_rate` to `dst_rate`, in binary64 arithmetic (see [`resample_at`]).
pub fn resample_linear(input: &[i16], channels: usize, src_rate: u32, dst_rate: u32) -> (out: Vec<
    i16,
>)
    requires
        resample_defined(input@.len(), channels as nat, src_rate as nat, dst_rate as nat),
    ensures
        out@ == resampled(input@, channels as nat, src_rate as nat, dst_rate as nat),
{
    if src_rate == dst_rate || input.len() == 0 {
        return copy_samples(input);
    }
    if dst_rate == 0 {
        let mut out: Vec<i16> = Vec::new();
        for k in 0..channels
            invariant
                out@ == Seq::new(k as nat, |x: int| 0i16),
        {
            out.push(0);
            assert(out@ =~= Seq::new((k + 1) as nat, |x: int| 0i16));
        }
        return out;
    }
    let ghost c = channels as nat;
    let ghost s = src_rate as nat;
    let ghost dd = dst_rate as nat;
    let ghost spec_out = resampled(input@, c, s, dd);
    let ilen = input.len();
    let frames = input.len() / channels;
    assert(frames >= 1) by (nonlinear_arith)
        requires
            frames == (input@.len() as int) / (channels as int),
            input@.len() >= channels,
            channels > 0,
    ;
    let q: u64 = (frames as u64) * (dst_rate as u64) / (src_rate as u64);
    let df: usize = if q >= 1 {
        assert(q * channels <= usize::MAX);
        assert(q <= q * channels) by (nonlinear_arith)
            requires
                channels >= 1,
                q >= 1,
        ;
        q as usize
    } else {
        1
    };
    assert(df == resampled_frames(frames as nat, s, dd));
    let (m, pk) = quotient_parts(src_rate, dst_rate);
    let mut out: Vec<i16> = Vec::new();
    let mut d: usize = 0;
    while d < df
        invariant
            c == channels,
            s == src_rate,
            dd == dst_rate,
            dst_rate > 0,
            src_rate > 0,
            channels > 0,
            src_rate != dst_rate,
            input@.len() > 0,
            ilen == input@.len(),
            frames == input@.len() / c,
            frames >= 1,
            df == resampled_frames(frames as nat, s, dd),
            df * channels <= usize::MAX,
            forall|e: nat| e < df ==> #[trigger] source_frame(e, s, dd) < frames,
            m == quotient_mant(s, dd),
            m <= two53(),
            pk == pos_scale(s, dd),
            1 <= pk < 0x20_0000_0000_0000_0000_0000,
            spec_out == resampled(input@, c, s, dd),
            d <= df,
            out@.len() == d * channels,
            forall|k: int| 0 <= k < out@.len() ==> #[trigger] out@[k] == spec_out[k],
        decreases df - d,
    {
        let pos = source_position(d as u64, m);
        assert(source_frame(d as nat, s, dd) < frames);
        let i: usize = (pos / pk) as usize;
        let fr: u128 = pos % pk;
        let j: usize = if i + 1 <= frames - 1 {
            i + 1
        } else {
            frames - 1
        };
        let mut ch: usize = 0;
        while ch < channels
            invariant
                c == channels,
                s == src_rate,
                dd == dst_rate,
                dst_rate > 0,
                channels > 0,
                src_rate != dst_rate,
                input@.len() > 0,
                ilen == input@.len(),
                frames == input@.len() / c,
                frames >= 1,
                df == resampled_frames(frames as nat, s, dd),
                df * channels <= usize::MAX,
                spec_out == resampled(input@, c, s, dd),
                pk == pos_scale(s, dd),
                1 <= pk < 0x20_0000_0000_0000_0000_0000,
                d < df,
                i < frames,
                pos == source_pos(d as nat, s, dd),
                i == pos / pk,
                fr == pos % pk,
                j == (if i + 1 <= frames - 1 {
                    i + 1
                } else {
                    frames - 1
                }),
                ch <= channels,
                out@.len() == d * channels + ch,
                forall|k: int| 0 <= k < out@.len() ==> #[trigger] out@[k] == spec_out[k],
            decreases channels - ch,
        {
            proof {
                lemma_interleaved_index(i as int, c as int, ch as int, frames as int, input@.len() as int);
                lemma_interleaved_index(j as int, c as int, ch as int, frames as int, input@.len() as int);
                lemma_frame_channel(d as int, c as int, ch as int);
                assert(d * channels + ch < df * channels) by (nonlinear_arith)
                    requires
                        d < df,
                        ch < channels,
                ;
            }
            let a = input[i * channels + ch];
            let b = input[j * channels + ch];
            let v = interpolate(a, b, fr, pk);
            proof {
                let k = d * channels + ch;
                assert(spec_out[k as int] == resample_at(input@, c, s, dd, d as int, ch as int) as i16);
            }
            out.push(v);
            ch += 1;
        }
        proof {
            assert((d + 1) * channels == d * channels + channels) by (nonlinear_arith);
        }
        d += 1;
    }
    assert(out@ =~= spec_out);
    out
}

/// `a + (b - a) * (fr / den)` in binary64 arithmetic, limited to the 16-bit
/// range and rounded toward zero.
fn interpolate(a: i16, b: i16, fr: u128, den: u128) -> (v: i16)
    requires
        fr < den < 0x20_0000_0000_0000_0000_0000,
    ensures
        v == interpolated(a as int, b as int, fr as int, den as int),
{
    let diff: i128 = (b as i128) - (a as i128);
    assert(-0x100_0000_0000_0000_0000_0000_0000 < diff * (fr as int) < 0x100_0000_0000_0000_0000_0000_0000)
        by (nonlinear_arith)
        requires
            -65535 <= diff <= 65535,
            0 <= fr < 0x20_0000_0000_0000_0000_0000,
    ;
    let w = round53_i128(diff * (fr as i128));
    assert(-0x100_0000_0000_0000_0000_0000_0000 < (a as int) * (den as int) < 0x100_0000_0000_0000_0000_0000_0000)
        by (nonlinear_arith)
        requires
            -32768 <= a <= 32767,
            0 <= den < 0x20_0000_0000_0000_0000_0000,
    ;
    let y: i128 = (a as i128) * (den as i128) + w;
    let r = round53_i128(y);
    let t: i128 = if r >= 0 {
        r / (den as i128)
    } else {
        -((-r) / (den as i128))
    };
    if t < -32768 {
        -32768
    } else if t > 32767 {
        32767
    } else {
        t as i16
    }
}

// ---------------------------------------------------------------------------
// Sample formats and channel layout
// ---------------------------------------------------------------------------

/// The signed 16-bit sample stored little-endian in the bytes `lo`, `hi`.
pub open spec fn s16le(lo: u8, hi: u8) -> i16 {
    (if hi >= 128 {
        hi as int * 256 + lo as int - 65536
    } else {
        hi as int * 256 + lo as int
    }) as i16
}

/// The samples of a little-endian 16-bit byte stream; a trailing odd byte
/// is ignored.
pub open spec fn decoded_s16le(bytes: Seq<u8>) -> Seq<i16> {
    Seq::new(bytes.len() / 2, |k: int| s16le(bytes[2 * k], bytes[2 * k + 1]))
}

fn sample_from_le(lo: u8, hi: u8) -> (v: i16)
    ensures
        v == s16le(lo, hi),
{
    let u: i32 = (hi as i32) * 256 + (lo as i32);
    if hi >= 128 {
        (u - 65536) as i16
    } else {
        u as i16
    }
}

/// Decodes little-endian signed 16-bit samples (`s16le`); a trailing odd
/// byte is dropped.
pub fn decode_s16le(bytes: &[u8]) -> (samples: Vec<i16>)
    ensures
        samples@ == decoded_s16le(bytes@),
{
    let n = bytes.len();
    let half = n / 2;
    let mut samples: Vec<i16> = Vec::new();
    let mut k: usize = 0;
    while k < half
        invariant
            n == bytes@.len(),
            half == n / 2,
            k <= half,
            samples@ == decoded_s16le(bytes@).take(k as int),
        decreases half - k,
    {
        assert(2 * k + 1 < n);
        let v = sample_from_le(bytes[2 * k], bytes[2 * k + 1]);
        samples.push(v);
        assert(decoded_s16le(bytes@).take(k + 1) =~= decoded_s16le(bytes@).take(k as int).push(v));
        k += 1;
    }
    assert(decoded_s16le(bytes@).take(half as int) =~= decoded_s16le(bytes@));
    samples
}

/// The number of bytes in a chunk of `frames` stereo-or-more 16-bit frames.
pub open spec fn chunk_bytes(frames: nat, channels: nat) -> nat {
    frames * channels * 2
}

/// Takes every whole chunk of `chunk_frames` frames of `channels` 16-bit
/// samples off the front of `queue`, decoding each; the bytes of an
/// incomplete chunk stay queued.
pub fn drain_chunks(queue: &mut std::collections::VecDeque<u8>, chunk_frames: usize, channels: u16) -> (chunks: Vec<Vec<i16>>)
    requires
        chunk_frames * channels > 0,
        chunk_bytes(chunk_frames as nat, channels as nat) <= usize::MAX,
    ensures
        ({
            let n = chunk_bytes(chunk_frames as nat, channels as nat) as int;
            let q = old(queue)@;
            let m = q.len() as int / n;
            &&& chunks@.len() == m
            &&& forall|c: int|
                0 <= c < m ==> #[trigger] chunks@[c]@ == decoded_s16le(q.subrange(c * n, c * n + n))
            &&& final(queue)@ == q.subrange(m * n, q.len() as int)
            &&& final(queue)@.len() < n
            &&& forall|c: int| 0 <= c < m ==> #[trigger] chunks@[c]@.len() == chunk_frames * channels
        }),
{
    broadcast use vstd::std_specs::vecdeque::axiom_spec_len;
    let ghost q = queue@;
    assert(q.len() <= usize::MAX) by {
        assert(queue.len() == q.len());
    }
    let n: usize = chunk_frames * (channels as usize) * 2;
    let ghost ni = n as int;
    let mut chunks: Vec<Vec<i16>> = Vec::new();
    let mut cnt: usize = 0;
    while queue.len() >= n
        invariant
            n == chunk_bytes(chunk_frames as nat, channels as nat),
            ni == n,
            n > 0,
            q.len() <= usize::MAX,
            cnt * ni <= q.len(),
            queue@ == q.subrange(cnt * ni, q.len() as int),
            chunks@.len() == cnt,
            forall|c: int|
                0 <= c < cnt ==> #[trigger] chunks@[c]@ == decoded_s16le(q.subrange(c * ni, c * ni + ni)),
        decreases queue@.len(),
    {
        let ghost base = cnt * ni;
        let mut buf: Vec<u8> = Vec::new();
        let mut t: usize = 0;
        while t < n
            invariant
                ni == n,
                0 <= base,
                base + ni <= q.len(),
                t <= n,
                buf@ == q.subrange(base, base + t),
                queue@ == q.subrange(base + t, q.len() as int),
            decreases n - t,
        {
            match queue.pop_front() {
                Some(b) => {
                    buf.push(b);
                    assert(q.subrange(base, base + t + 1) =~= q.subrange(base, base + t).push(b));
                    assert(queue@ =~= q.subrange(base + t + 1, q.len() as int));
                },
                None => {
                    assert(false);
                },
            }
            t += 1;
        }
        chunks.push(decode_s16le(buf.as_slice()));
        proof {
            assert((cnt + 1) * ni == cnt * ni + ni) by (nonlinear_arith);
            assert(cnt + 1 <= (cnt + 1) * ni) by (nonlinear_arith)
                requires
                    ni >= 1,
            ;
        }
        cnt += 1;
    }
    proof {
        let m = q.len() as int / ni;
        vstd::arithmetic::div_mod::lemma_fundamental_div_mod_converse(
            q.len() as int,
            ni,
            cnt as int,
            q.len() - cnt * ni,
        );
        assert(m == cnt);
        assert forall|c: int| 0 <= c < m implies #[trigger] chunks@[c]@.len() == chunk_frames
            * channels by {
            assert(q.subrange(c * ni, c * ni + ni).len() == ni) by {
                assert(c * ni + ni <= q.len()) by (nonlinear_arith)
                    requires
                        0 <= c < m,
                        m * ni <= q.len(),
                        ni > 0,
                ;
                assert(0 <= c * ni) by (nonlinear_arith)
                    requires
                        0 <= c,
                        ni > 0,
                ;
            }
        }
    }
    chunks
}

/// Takes every whole frame of `channels` 16-bit samples off the front of
/// `queue` and decodes them; the bytes of an incomplete frame stay queued
/// for the next read, so frames are never split.
pub fn take_whole_frames(queue: &mut std::collections::VecDeque<u8>, channels: u16) -> (samples: Vec<i16>)
    requires
        channels > 0,
    ensures
        ({
            let n = 2 * channels as int;
            let q = old(queue)@;
            let m = q.len() as int / n;
            &&& samples@ == decoded_s16le(q.take(m * n))
            &&& final(queue)@ == q.skip(m * n)
            &&& final(queue)@.len() < n
            &&& samples@.len() == m * channels
        }),
{
    broadcast use vstd::std_specs::vecdeque::axiom_spec_len;
    let ghost q = queue@;
    let n: usize = 2 * (channels as usize);
    let qlen = queue.len();
    proof {
        vstd::arithmetic::div_mod::lemma_fundamental_div_mod(qlen as int, n as int);
        assert((qlen / n) * n <= qlen) by (nonlinear_arith)
            requires
                qlen == n * (qlen / n) + qlen % n,
                qlen % n >= 0,
        ;
    }
    let whole: usize = (qlen / n) * n;
    let ghost m = q.len() as int / (n as int);
    proof {
        assert(whole == m * n);
        assert(0 <= whole <= q.len());
        assert(whole == qlen - qlen % n) by (nonlinear_arith)
            requires
                qlen == n * (qlen / n) + qlen % n,
                whole == (qlen / n) * n,
        ;
        assert(qlen % n < n);
        assert(q.len() - whole < n);
    }
    let mut buf: Vec<u8> = Vec::new();
    let mut t: usize = 0;
    while t < whole
        invariant
            whole <= q.len(),
            t <= whole,
            buf@ == q.take(t as int),
            queue@ == q.skip(t as int),
        decreases whole - t,
    {
        match queue.pop_front() {
            Some(b) => {
                buf.push(b);
                assert(q.take(t + 1) =~= q.take(t as int).push(b));
                assert(queue@ =~= q.skip(t + 1));
            },
            None => {
                assert(false);
            },
        }
        t += 1;
    }
    let samples = decode_s16le(buf.as_slice());
    proof {
        assert(q.len() - whole < n);
        assert(whole / 2 == m * channels) by (nonlinear_arith)
            requires
                whole == m * n,
                n == 2 * channels,
        ;
    }
    samples
}

/// An unsigned 16-bit sample shifted to the signed range.
pub open spec fn u16_to_i16_sample(u: u16) -> i16 {
    (u as int - 32768) as i16
}

/// Converts unsigned 16-bit samples to signed ones by removing the offset
/// of 32768.
pub fn u16_to_i16(data: &[u16]) -> (out: Vec<i16>)
    ensures
        out@ == data@.map_values(|u: u16| u16_to_i16_sample(u)),
{
    let mut out: Vec<i16> = Vec::new();
    for i in 0..data.len()
        invariant
            out@ == data@.take(i as int).map_values(|u: u16| u16_to_i16_sample(u)),
    {
        let v: i16 = ((data[i] as i32) - 32768) as i16;
        out.push(v);
        assert(data@.take(i + 1).map_values(|u: u16| u16_to_i16_sample(u)) =~= data@.take(
            i as int,
        ).map_values(|u: u16| u16_to_i16_sample(u)).push(v));
    }
    assert(data@.take(data@.len() as int) =~= data@);
    out
}

/// The number of samples kept per frame: two for a stereo-or-wider target,
/// else one.
pub open spec fn kept_per_frame(want: nat) -> nat {
    if want >= 2 {
        2
    } else {
        1
    }
}

/// Interleaved `data` with `inc` channels reduced to its first channel, and
/// its second as well when the target has two or more channels; a mono
/// source feeds both.
pub open spec fn downmixed(data: Seq<i16>, inc: nat, want: nat) -> Seq<i16> {
    let w = kept_per_frame(want);
    Seq::new(
        (data.len() / inc) * w,
        |k: int|
            {
                let f = k / (w as int);
                let slot = k % (w as int);
                if slot == 0 || inc < 2 {
                    data[f * inc]
                } else {
                    data[f * inc + 1]
                }
            },
    )
}

/// Picks the left (and right) sample of every frame of interleaved `data`.
pub fn downmix_i16(data: &[i16], in_channels: u16, want_channels: u16) -> (out: Vec<i16>)
    requires
        in_channels > 0,
    ensures
        out@ == downmixed(data@, in_channels as nat, want_channels as nat),
{
    let ghost spec_out = downmixed(data@, in_channels as nat, want_channels as nat);
    let inc = in_channels as usize;
    let n = data.len();
    let frames = n / inc;
    let w: usize = if want_channels >= 2 {
        2
    } else {
        1
    };
    let mut out: Vec<i16> = Vec::new();
    let mut f: usize = 0;
    while f < frames
        invariant
            n == data@.len(),
            inc == in_channels,
            inc > 0,
            frames == n / inc,
            w == kept_per_frame(want_channels as nat),
            spec_out == downmixed(data@, in_channels as nat, want_channels as nat),
            f <= frames,
            out@.len() == f * w,
            forall|k: int| 0 <= k < out@.len() ==> #[trigger] out@[k] == spec_out[k],
        decreases frames - f,
    {
        proof {
            assert(f * inc + inc <= n) by (nonlinear_arith)
                requires
                    f < frames,
                    frames == n / inc,
                    inc > 0,
            ;
            assert((f + 1) * w == f * w + w) by (nonlinear_arith);
            assert(f * w + w <= frames * w) by (nonlinear_arith)
                requires
                    f < frames,
            ;
            lemma_frame_channel(f as int, w as int, 0);
            if w == 2 {
                lemma_frame_channel(f as int, w as int, 1);
            }
        }
        let base = f * inc;
        let l = data[base];
        let r = if inc >= 2 {
            data[base + 1]
        } else {
            l
        };
        out.push(l);
        if w == 2 {
            out.push(r);
        }
        f += 1;
    }
    assert(out@ =~= spec_out);
    out
}

/// The samples a 16-bit capture block becomes: reduced to the target's
/// channel layout, then resampled to the target rate when the rates differ.
pub open spec fn converted_block(
    data: Seq<i16>,
    in_channels: nat,
    in_rate: nat,
    want_channels: nat,
    want_rate: nat,
) -> Seq<i16> {
    resampled(downmixed(data, in_channels, want_channels), want_channels, in_rate, want_rate)
}

/// The inputs on which a 16-bit capture block can be converted.
pub open spec fn convert_defined(
    data_len: nat,
    in_channels: nat,
    in_rate: nat,
    want_channels: nat,
    want_rate: nat,
) -> bool {
    &&& in_channels > 0
    &&& (data_len / in_channels) * kept_per_frame(want_channels) <= usize::MAX
    &&& resample_defined(
        (data_len / in_channels) * kept_per_frame(want_channels),
        want_channels,
        in_rate,
        want_rate,
    )
}

/// Whether `convert_i16` may be called on a block of `data_len` samples
/// with these formats (see [`convert_defined`]).
pub fn convert_supported(
    data_len: usize,
    in_channels: u16,
    in_rate: u32,
    want_channels: u16,
    want_rate: u32,
) -> (ok: bool)
    ensures
        ok == convert_defined(
            data_len as nat,
            in_channels as nat,
            in_rate as nat,
            want_channels as nat,
            want_rate as nat,
        ),
{
    if in_channels == 0 {
        return false;
    }
    let kept: usize = if want_channels >= 2 {
        2
    } else {
        1
    };
    let frames = data_len / (in_channels as usize);
    match frames.checked_mul(kept) {
        Some(mixed) => resample_supported(mixed, want_channels as usize, in_rate, want_rate),
        None => {
            assert(frames * kept > usize::MAX);
            false
        },
    }
}

/// Turns a block of 16-bit capture samples into a frame in the target
/// format (the work of the capture callback before it queues the frame).
pub fn convert_i16(
    data: &[i16],
    in_channels: u16,
    in_rate: u32,
    want_channels: u16,
    want_rate: u32,
) -> (frame: CapturedFrame)
    requires
        convert_defined(
            data@.len(),
            in_channels as nat,
            in_rate as nat,
            want_channels as nat,
            want_rate as nat,
        ),
    ensures
        frame.samples@ == converted_block(
            data@,
            in_channels as nat,
            in_rate as nat,
            want_channels as nat,
            want_rate as nat,
        ),
        frame.channels == want_channels,
        frame.sample_rate == want_rate,
{
    let mixed = downmix_i16(data, in_channels, want_channels);
    let samples = if in_rate == want_rate {
        mixed
    } else {
        resample_linear(mixed.as_slice(), want_channels as usize, in_rate, want_rate)
    };
    CapturedFrame { samples, channels: want_channels, sample_rate: want_rate }
}

/// Rounding toward zero keeps the order of the numerators.
proof fn lemma_trunc_div_mono(x: int, y: int, den: int)
    requires
        x <= y,
        den > 0,
    ensures
        trunc_div(x, den) <= trunc_div(y, den),
{
    if x >= 0 {
        lemma_div_is_ordered(x, y, den);
    } else if y < 0 {
        lemma_div_is_ordered(-y, -x, den);
    } else {
        lemma_div_pos_is_pos(-x, den);
        lemma_div_pos_is_pos(y, den);
    }
}

proof fn lemma_trunc_div_multiple(a: int, den: int)
    requires
        den > 0,
    ensures
        trunc_div(a * den, den) == a,
{
    if a >= 0 {
        lemma_div_multiples_vanish(a, den);
        assert(a * den == den * a && a * den >= 0) by (nonlinear_arith)
            requires
                a >= 0,
                den > 0,
        ;
    } else {
        lemma_div_multiples_vanish(-a, den);
        assert(a * den < 0 && -(a * den) == den * (-a)) by (nonlinear_arith)
            requires
                a < 0,
                den > 0,
        ;
    }
}

/// Interpolating between two 16-bit samples never leaves the interval
/// between them, however the doubles round (so resampled audio needs no
/// clipping).
pub proof fn lemma_interpolated_between(a: int, b: int, fr: int, e: nat)
    requires
        -32768 <= a <= 32767,
        -32768 <= b <= 32767,
        0 <= fr < pow2(e),
    ensures
        (if a <= b { a } else { b }) <= interpolated(a, b, fr, pow2(e) as int) <= (if a <= b {
            b
        } else {
            a
        }),
{
    let den = pow2(e) as int;
    let t = (b - a) * fr;
    let full = (b - a) * den;
    let w = round53_signed(t);
    let v = round53_signed(a * den + w);
    lemma_round53_signed_exact(0, e);
    lemma_round53_signed_exact(b - a, e);
    lemma_round53_signed_exact(a, e);
    lemma_round53_signed_exact(b, e);
    assert(0 * den == 0);
    assert(a * den + full == b * den) by (nonlinear_arith)
        requires
            full == (b - a) * den,
    ;
    if a <= b {
        assert(0 <= t <= full) by (nonlinear_arith)
            requires
                t == (b - a) * fr,
                full == (b - a) * den,
                a <= b,
                0 <= fr < den,
        ;
        lemma_round53_signed_mono(0, t);
        lemma_round53_signed_mono(t, full);
        lemma_round53_signed_mono(a * den, a * den + w);
        lemma_round53_signed_mono(a * den + w, b * den);
        lemma_trunc_div_mono(a * den, v, den);
        lemma_trunc_div_mono(v, b * den, den);
    } else {
        assert(full <= t <= 0) by (nonlinear_arith)
            requires
                t == (b - a) * fr,
                full == (b - a) * den,
                b < a,
                0 <= fr < den,
        ;
        lemma_round53_signed_mono(t, 0);
        lemma_round53_signed_mono(full, t);
        lemma_round53_signed_mono(a * den + w, a * den);
        lemma_round53_signed_mono(b * den, a * den + w);
        lemma_trunc_div_mono(v, a * den, den);
        lemma_trunc_div_mono(b * den, v, den);
    }
    lemma_trunc_div_multiple(a, den);
    lemma_trunc_div_multiple(b, den);
}

/// Every resampled sample lies between the two source samples it is
/// interpolated from: those of its channel in the source frame where its
/// position falls and in the next one (or the last).
pub proof fn lemma_resampled_between(input: Seq<i16>, c: nat, src: nat, dst: nat, d: nat, ch: nat)
    requires
        resample_defined(input.len(), c, src, dst),
        src != dst,
        dst > 0,
        input.len() > 0,
        d < resampled_frames(input.len() / c, src, dst),
        ch < c,
    ensures
        ({
            let frames = input.len() / c;
            let i = source_frame(d, src, dst) as int;
            let j = if i + 1 <= frames - 1 {
                i + 1
            } else {
                frames - 1
            };
            let a = input[i * c + ch] as int;
            let b = input[j * c + ch] as int;
            let v = resampled(input, c, src, dst)[(d * c + ch) as int] as int;
            (if a <= b { a } else { b }) <= v <= (if a <= b { b } else { a })
        }),
{
    let frames = input.len() / c;
    let e = quotient_exp(src, dst);
    let den = pos_scale(src, dst) as int;
    let p = source_pos(d, src, dst) as int;
    let i = source_frame(d, src, dst) as int;
    let j = if i + 1 <= frames - 1 {
        i + 1
    } else {
        frames - 1
    };
    lemma_pow2_pos(e);
    assert(i < frames);
    lemma_interleaved_index(i, c as int, ch as int, frames as int, input.len() as int);
    lemma_interleaved_index(j, c as int, ch as int, frames as int, input.len() as int);
    lemma_frame_channel(d as int, c as int, ch as int);
    let n = resampled_frames(frames, src, dst);
    assert(d * c + ch < n * c) by (nonlinear_arith)
        requires
            d < n,
            ch < c,
    ;
    lemma_interpolated_between(input[i * c + ch] as int, input[j * c + ch] as int, p % den, e);
}

/// The interpolated sample is the exact point `a + (b - a) * fr / den`
/// rounded toward zero, up to the doubles' rounding (less than `2^-35`):
/// it lies within one unit (plus that margin) of the exact point, and never
/// further from zero than the exact point (plus that margin).
pub proof fn lemma_interpolated_accuracy(a: int, b: int, fr: int, e: nat)
    requires
        -32768 <= a <= 32767,
        -32768 <= b <= 32767,
        0 <= fr < pow2(e),
    ensures
        ({
            let den = pow2(e) as int;
            let x = a * den + (b - a) * fr;
            let r = interpolated(a, b, fr, den);
            &&& 0x8_0000_0000 * (x - r * den) < 0x8_0000_0001 * den
            &&& 0x8_0000_0000 * (r * den - x) < 0x8_0000_0001 * den
            &&& x >= 0 ==> 0x8_0000_0000 * (r * den - x) <= den
            &&& x <= 0 ==> 0x8_0000_0000 * (x - r * den) <= den
        }),
{
    let den = pow2(e) as int;
    lemma_pow2_pos(e);
    let x = a * den + (b - a) * fr;
    let t = (b - a) * fr;
    let w = round53_signed(t);
    let y = a * den + w;
    let v = round53_signed(y);
    lemma_round53_signed_error(t);
    lemma_round53_signed_error(y);
    assert(-65535 * den <= t <= 65535 * den) by (nonlinear_arith)
        requires
            t == (b - a) * fr,
            -65535 <= b - a <= 65535,
            0 <= fr < den,
    ;
    assert(-32768 * den <= a * den <= 32768 * den) by (nonlinear_arith)
        requires
            -32768 <= a <= 32767,
            den > 0,
    ;
    assert(-32768 * den <= x <= 32767 * den) by (nonlinear_arith)
        requires
            x == a * den + (b - a) * fr,
            -32768 <= a <= 32767,
            -32768 <= b <= 32767,
            0 <= fr < den,
    ;
    assert(0x8_0000_0000 * (v - x) < den && 0x8_0000_0000 * (x - v) < den);
    let q = trunc_div(v, den);
    if v >= 0 {
        lemma_fundamental_div_mod(v, den);
        assert(q * den <= v < q * den + den) by (nonlinear_arith)
            requires
                v == den * (v / den) + v % den,
                0 <= v % den < den,
                q == v / den,
        ;
        lemma_div_pos_is_pos(v, den);
        assert(q <= 32767) by (nonlinear_arith)
            requires
                q * den <= v,
                0x8_0000_0000 * (v - x) < den,
                x <= 32767 * den,
                den > 0,
        ;
        if x <= 0 {
            assert(v < den);
            assert(q == 0) by (nonlinear_arith)
                requires
                    q * den <= v,
                    v < den,
                    q >= 0,
                    den > 0,
            ;
        }
    } else {
        let nv = -v;
        lemma_fundamental_div_mod(nv, den);
        assert(q * den >= v > q * den - den) by (nonlinear_arith)
            requires
                nv == den * (nv / den) + nv % den,
                0 <= nv % den < den,
                q == -(nv / den),
                v == -nv,
        ;
        lemma_div_pos_is_pos(nv, den);
        assert(q >= -32768) by (nonlinear_arith)
            requires
                q * den >= v,
                0x8_0000_0000 * (x - v) < den,
                x >= -32768 * den,
                den > 0,
        ;
        if x >= 0 {
            assert(nv < den);
            assert(q == 0) by (nonlinear_arith)
                requires
                    q * den >= v,
                    nv < den,
                    v == -nv,
                    q <= 0,
                    den > 0,
            ;
        }
    }
    assert(interpolated(a, b, fr, den) == q);
    let qd = q * den;
    assert(0x8_0000_0000 * (x - qd) < 0x8_0000_0001 * den);
    assert(0x8_0000_0000 * (qd - x) < 0x8_0000_0001 * den);
    if x >= 0 {
        if v >= 0 {
            assert(qd <= v);
        } else {
            assert(q == 0);
            assert(qd == 0) by (nonlinear_arith)
                requires
                    qd == q * den,
                    q == 0,
            ;
        }
        assert(0x8_0000_0000 * (qd - x) <= den);
    }
    assert(x <= 0 ==> 0x8_0000_0000 * (x - qd) <= den);
}

/// For fixed neighbours, the interpolated sample moves monotonically from
/// `a` towards `b` as the fraction grows.
pub proof fn lemma_interpolated_mono(a: int, b: int, fr1: int, fr2: int, e: nat)
    requires
        0 <= fr1 <= fr2 < pow2(e),
    ensures
        a <= b ==> interpolated(a, b, fr1, pow2(e) as int) <= interpolated(a, b, fr2, pow2(e) as int),
        b <= a ==> interpolated(a, b, fr2, pow2(e) as int) <= interpolated(a, b, fr1, pow2(e) as int),
{
    let den = pow2(e) as int;
    lemma_pow2_pos(e);
    let t1 = (b - a) * fr1;
    let t2 = (b - a) * fr2;
    if a <= b {
        assert(t1 <= t2) by (nonlinear_arith)
            requires
                t1 == (b - a) * fr1,
                t2 == (b - a) * fr2,
                a <= b,
                fr1 <= fr2,
        ;
        lemma_round53_signed_mono(t1, t2);
        lemma_round53_signed_mono(a * den + round53_signed(t1), a * den + round53_signed(t2));
        lemma_trunc_div_mono(
            round53_signed(a * den + round53_signed(t1)),
            round53_signed(a * den + round53_signed(t2)),
            den,
        );
    }
    if b <= a {
        assert(t2 <= t1) by (nonlinear_arith)
            requires
                t1 == (b - a) * fr1,
                t2 == (b - a) * fr2,
                b <= a,
                fr1 <= fr2,
        ;
        lemma_round53_signed_mono(t2, t1);
        lemma_round53_signed_mono(a * den + round53_signed(t2), a * den + round53_signed(t1));
        lemma_trunc_div_mono(
            round53_signed(a * den + round53_signed(t2)),
            round53_signed(a * den + round53_signed(t1)),
            den,
        );
    }
}

/// When the rates differ, a converted block holds the resampled number of
/// frames in the target layout, whatever the source layout: one or two
/// channels each, for `frames * want_rate / in_rate` frames (at least one).
pub proof fn lemma_converted_len(
    data: Seq<i16>,
    in_channels: nat,
    in_rate: nat,
    want_channels: nat,
    want_rate: nat,
)
    requires
        in_channels > 0,
        1 <= want_channels <= 2,
        in_rate != want_rate,
        data.len() >= in_channels,
    ensures
        converted_block(data, in_channels, in_rate, want_channels, want_rate).len()
            == resampled_frames(data.len() / in_channels, in_rate, want_rate) * want_channels,
{
    let frames = data.len() / in_channels;
    let m = downmixed(data, in_channels, want_channels);
    assert(frames >= 1) by (nonlinear_arith)
        requires
            frames == data.len() / in_channels,
            data.len() >= in_channels,
            in_channels > 0,
    ;
    assert(m.len() == frames * want_channels);
    assert(m.len() > 0) by (nonlinear_arith)
        requires
            m.len() == frames * want_channels,
            frames >= 1,
            want_channels >= 1,
    ;
    lemma_div_multiples_vanish(frames as int, want_channels as int);
    assert(m.len() / want_channels == frames) by (nonlinear_arith)
        requires
            m.len() == frames * want_channels,
            ((want_channels * frames) as int) / (want_channels as int) == frames as int,
    ;
}

/// A chunk's bytes decode into exactly one chunk of samples, with no byte
/// left out, so the chunks drained one after another decode, joined, the
/// whole prefix that was removed.
pub proof fn lemma_chunks_decode_prefix(q: Seq<u8>, frames: nat, channels: nat)
    requires
        frames * channels > 0,
    ensures
        ({
            let n = chunk_bytes(frames, channels) as int;
            let m = q.len() as int / n;
            &&& forall|c: int|
                0 <= c < m ==> 2 * #[trigger] decoded_s16le(q.subrange(c * n, c * n + n)).len() == n
                    && decoded_s16le(q.subrange(c * n, c * n + n)).len() == frames * channels
            &&& Seq::new(m as nat, |c: int| decoded_s16le(q.subrange(c * n, c * n + n))).flatten()
                == decoded_s16le(q.take(m * n))
        }),
{
    let n = chunk_bytes(frames, channels) as int;
    assert(n == 2 * (frames * channels)) by (nonlinear_arith)
        requires
            n == frames * channels * 2,
    ;
    let m = q.len() as int / n;
    assert forall|c: int| 0 <= c < m implies 2 * #[trigger] decoded_s16le(
        q.subrange(c * n, c * n + n),
    ).len() == n && decoded_s16le(q.subrange(c * n, c * n + n)).len() == frames * channels by {
        assert(c * n + n <= m * n) by (nonlinear_arith)
            requires
                c < m,
                n > 0,
        ;
        vstd::arithmetic::div_mod::lemma_fundamental_div_mod(q.len() as int, n);
        assert(m * n <= q.len()) by (nonlinear_arith)
            requires
                q.len() == n * m + q.len() as int % n,
                q.len() as int % n >= 0,
        ;
        assert(0 <= c * n) by (nonlinear_arith)
            requires
                c >= 0,
                n > 0,
        ;
    }
    vstd::arithmetic::div_mod::lemma_fundamental_div_mod(q.len() as int, n);
    assert(m * n <= q.len()) by (nonlinear_arith)
        requires
            q.len() == n * m + q.len() as int % n,
            q.len() as int % n >= 0,
    ;
    assert(m >= 0) by (nonlinear_arith)
        requires
            m == q.len() as int / n,
            n > 0,
    ;
    lemma_chunks_flatten(q, n, m as nat);
}

proof fn lemma_chunks_flatten(q: Seq<u8>, n: int, m: nat)
    requires
        n > 0,
        n % 2 == 0,
        m * n <= q.len(),
    ensures
        Seq::new(m, |c: int| decoded_s16le(q.subrange(c * n, c * n + n))).flatten() == decoded_s16le(
            q.take(m * n),
        ),
    decreases m,
{
    let s = Seq::new(m, |c: int| decoded_s16le(q.subrange(c * n, c * n + n)));
    if m == 0 {
        assert(q.take(0) =~= Seq::<u8>::empty());
        assert(decoded_s16le(Seq::<u8>::empty()) =~= Seq::<i16>::empty());
    } else {
        let rest = q.skip(n);
        assert((m - 1) * n + n == m * n) by (nonlinear_arith);
        lemma_chunks_flatten(rest, n, (m - 1) as nat);
        let s2 = Seq::new((m - 1) as nat, |c: int| decoded_s16le(rest.subrange(c * n, c * n + n)));
        assert forall|c: int| 0 <= c < m - 1 implies #[trigger] s.drop_first()[c] == s2[c] by {
            assert((c + 1) * n == c * n + n) by (nonlinear_arith);
            assert(0 <= c * n) by (nonlinear_arith)
                requires
                    c >= 0,
                    n > 0,
            ;
            assert(c * n + n + n <= m * n) by (nonlinear_arith)
                requires
                    c < m - 1,
                    n > 0,
            ;
            assert(rest.subrange(c * n, c * n + n) =~= q.subrange((c + 1) * n, (c + 1) * n + n));
        }
        assert(s.drop_first() =~= s2);
        assert(s[0] == decoded_s16le(q.subrange(0, n)));
        assert(q.take(m * n) =~= q.subrange(0, n) + rest.take((m - 1) * n));
        lemma_decode_concat(q.subrange(0, n), rest.take((m - 1) * n));
    }
}

/// Every 16-bit sample is stored as exactly one pair of bytes: decoding the
/// low and high byte of a sample's two's-complement pattern gives the
/// sample back, and a decoded sample's pattern is `hi * 256 + lo`.
pub proof fn lemma_s16le_roundtrip(lo: u8, hi: u8, v: i16)
    ensures
        (if s16le(lo, hi) < 0 { s16le(lo, hi) as int + 65536 } else { s16le(lo, hi) as int })
            == hi as int * 256 + lo as int,
        ({
            let pattern = if v < 0 { v as int + 65536 } else { v as int };
            s16le((pattern % 256) as u8, (pattern / 256) as u8) == v
        }),
{
}

/// Unsigned samples keep their order when made signed, and the midpoint
/// 32768 becomes silence.
pub proof fn lemma_u16_to_i16_order(u1: u16, u2: u16)
    ensures
        u1 < u2 ==> u16_to_i16_sample(u1) < u16_to_i16_sample(u2),
        u16_to_i16_sample(32768) == 0,
        u16_to_i16_sample(u2) as int - u16_to_i16_sample(u1) as int == u2 as int - u1 as int,
{
}

/// Reducing to stereo keeps the first two samples of every frame (a mono
/// source feeds both), and reducing to mono keeps the first; the number of
/// frames is unchanged.
pub proof fn lemma_downmix_frames(data: Seq<i16>, inc: nat, want: nat, f: int)
    requires
        inc > 0,
        1 <= want <= 2,
        0 <= f < data.len() / inc,
    ensures
        downmixed(data, inc, want).len() == (data.len() / inc) * want,
        downmixed(data, inc, want)[f * want] == data[f * inc],
        want == 2 ==> downmixed(data, inc, want)[f * 2 + 1] == data[f * inc + (if inc >= 2 {
            1int
        } else {
            0
        })],
{
    let w = want as int;
    lemma_frame_channel(f, w, 0);
    if want == 2 {
        lemma_frame_channel(f, 2, 1);
    }
    assert(f * w + w <= (data.len() / inc) * w) by (nonlinear_arith)
        requires
            f < data.len() / inc,
            w > 0,
    ;
    lemma_interleaved_index(f, inc as int, 0, (data.len() / inc) as int, data.len() as int);
    if inc >= 2 {
        lemma_interleaved_index(f, inc as int, 1, (data.len() / inc) as int, data.len() as int);
    }
}

/// Decoding a byte stream split at an even offset decodes each part on its
/// own: chunking loses and reorders no sample.
pub proof fn lemma_decode_concat(a: Seq<u8>, b: Seq<u8>)
    requires
        a.len() % 2 == 0,
    ensures
        decoded_s16le(a + b) == decoded_s16le(a) + decoded_s16le(b),
{
    let ab = a + b;
    let ha = a.len() / 2;
    vstd::arithmetic::div_mod::lemma_fundamental_div_mod(a.len() as int, 2);
    vstd::arithmetic::div_mod::lemma_fundamental_div_mod(b.len() as int, 2);
    vstd::arithmetic::div_mod::lemma_fundamental_div_mod_converse(
        (a.len() + b.len()) as int,
        2,
        (ha + b.len() / 2) as int,
        b.len() as int % 2,
    );
    assert forall|k: int| 0 <= k < decoded_s16le(ab).len() implies #[trigger] decoded_s16le(ab)[k] == (
    decoded_s16le(a) + decoded_s16le(b))[k] by {
        if k < ha {
            assert(2 * k + 1 < a.len());
        } else {
            assert(2 * k == a.len() + 2 * (k - ha));
        }
    }
    assert(decoded_s16le(ab) =~= decoded_s16le(a) + decoded_s16le(b));
}

/// A 16-bit stereo block already in the target format passes through the
/// conversion unchanged.
pub proof fn lemma_passthrough(data: Seq<i16>, rate: nat)
    requires
        data.len() % 2 == 0,
    ensures
        converted_block(data, 2, rate, 2, rate) == data,
{
    let m = downmixed(data, 2, 2);
    vstd::arithmetic::div_mod::lemma_fundamental_div_mod(data.len() as int, 2);
    assert(m.len() == data.len());
    assert forall|k: int| 0 <= k < m.len() implies #[trigger] m[k] == data[k] by {
        let f = k / 2;
        let slot = k % 2;
        vstd::arithmetic::div_mod::lemma_fundamental_div_mod(k, 2);
        assert(f * 2 + slot == k);
    }
    assert(m =~= data);
}

} // verus!
