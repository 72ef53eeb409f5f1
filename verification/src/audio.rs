//! Audio in memory: resampling, volume, loudness and WAV output.
//!
//! The samples themselves are processed by an array library. What is worked
//! out here is which samples take part: lengths, paddings, frames and the
//! shapes that are refused.

pub mod avio;
pub mod decode;

use crate::lengths;
use crate::rounding;
use crate::rounding::{Dyadic, Precision, Scaled};
use crate::shapes;
use crate::shapes::FrameLayout;
use crate::single::Single;
use std::io::Cursor;
use vstd::arithmetic::div_mod::*;
use vstd::arithmetic::power2::*;
use vstd::prelude::*;

verus! {

/// Mono samples with their rate.
#[derive(Debug)]
pub struct Audio {
    pub samples: Vec<Single>,
    pub sample_rate: u32,
}

/// What is wrong with a request about audio.
#[derive(Clone, Copy, Debug, PartialEq, Eq, Structural)]
pub enum AudioError {
    WaveformCount,
    /// The WAV writer failed.
    Writer,
    InterpolationRank,
    InterpolationInput,
    InterpolationTarget,
    LoudnessSource,
    LoudnessOutput,
    SampleRates,
    OriginalRate,
    TargetRate,
    FilterWidth,
    WaveformRank,
    WaveformType,
    HopSize,
    AudioRank,
    NoVolumeFrame,
    TooShortToReflect,
}

impl AudioError {
    pub open spec fn text(self) -> Seq<char> {
        match self {
            AudioError::WaveformCount => "output audio must contain exactly one waveform"@,
            AudioError::Writer => "failed to write WAV data"@,
            AudioError::InterpolationRank => "linear interpolation input must be 2D"@,
            AudioError::InterpolationInput => "linear interpolation input is empty"@,
            AudioError::InterpolationTarget => "linear interpolation target is empty"@,
            AudioError::LoudnessSource => "loudness source must have shape [1, samples]"@,
            AudioError::LoudnessOutput => "loudness output must contain one waveform"@,
            AudioError::SampleRates => "sample rates must be positive"@,
            AudioError::OriginalRate => "original sample rate must be positive"@,
            AudioError::TargetRate => "target sample rate must be positive"@,
            AudioError::FilterWidth => "low-pass filter width must be positive"@,
            AudioError::WaveformRank => "waveform must have shape [batch, samples]"@,
            AudioError::WaveformType => "waveform must use float32"@,
            AudioError::HopSize => "volume hop size must be positive"@,
            AudioError::AudioRank => "audio must have shape [batch, samples]"@,
            AudioError::NoVolumeFrame => "audio is shorter than one volume frame"@,
            AudioError::TooShortToReflect => "audio is too short for reflect padding"@,
        }
    }

    /// The message for the user.
    pub fn message(&self) -> (result: &'static str)
        ensures
            result@ == self.text(),
    {
        match self {
            AudioError::WaveformCount => "output audio must contain exactly one waveform",
            AudioError::Writer => "failed to write WAV data",
            AudioError::InterpolationRank => "linear interpolation input must be 2D",
            AudioError::InterpolationInput => "linear interpolation input is empty",
            AudioError::InterpolationTarget => "linear interpolation target is empty",
            AudioError::LoudnessSource => "loudness source must have shape [1, samples]",
            AudioError::LoudnessOutput => "loudness output must contain one waveform",
            AudioError::SampleRates => "sample rates must be positive",
            AudioError::OriginalRate => "original sample rate must be positive",
            AudioError::TargetRate => "target sample rate must be positive",
            AudioError::FilterWidth => "low-pass filter width must be positive",
            AudioError::WaveformRank => "waveform must have shape [batch, samples]",
            AudioError::WaveformType => "waveform must use float32",
            AudioError::HopSize => "volume hop size must be positive",
            AudioError::AudioRank => "audio must have shape [batch, samples]",
            AudioError::NoVolumeFrame => "audio is shorter than one volume frame",
            AudioError::TooShortToReflect => "audio is too short for reflect padding",
        }
    }
}

/// The number of samples of the one waveform in an array: its shape is `[n]`,
/// `[1, n]` or `[1, n, 1]`.
pub open spec fn waveform_length(shape: Seq<i32>) -> Option<i32> {
    if shape.len() == 1 {
        Some(shape[0])
    } else if shape.len() == 2 && shape[0] == 1 {
        Some(shape[1])
    } else if shape.len() == 3 && shape[0] == 1 && shape[2] == 1 {
        Some(shape[1])
    } else {
        None
    }
}

/// An array holds one waveform of `length` samples exactly where it is a row of
/// so many values, by itself, in a batch of one, or as one channel of that.
pub proof fn lemma_waveform_shapes(shape: Seq<i32>, length: i32)
    ensures
        waveform_length(shape) == Some(length) <==> shape =~= seq![length] || shape =~= seq![
            1i32,
            length,
        ] || shape =~= seq![1i32, length, 1i32],
{
}

/// See [`waveform_length`].
pub fn one_waveform(shape: &[i32]) -> (result: Option<i32>)
    ensures
        result == waveform_length(shape@),
{
    if shape.len() == 1 {
        Some(shape[0])
    } else if shape.len() == 2 && shape[0] == 1 {
        Some(shape[1])
    } else if shape.len() == 3 && shape[0] == 1 && shape[2] == 1 {
        Some(shape[1])
    } else {
        None
    }
}

/// Two bytes, the low one first.
pub open spec fn bytes16(value: int) -> Seq<u8> {
    seq![(value % 256) as u8, (value / 256 % 256) as u8]
}

/// Four bytes, the low one first.
pub open spec fn bytes32(value: int) -> Seq<u8> {
    bytes16(value % 65536) + bytes16(value / 65536)
}

/// Samples as bytes, one after the other.
pub open spec fn sample_bytes(samples: Seq<Single>) -> Seq<u8>
    decreases samples.len(),
{
    if samples.len() == 0 {
        seq![]
    } else {
        sample_bytes(samples.drop_last()) + bytes32(samples.last().bits as int)
    }
}

/// The header of a mono WAV file of single precision samples that holds
/// `size` bytes of them.
pub open spec fn wav_header(sample_rate: int, size: int) -> Seq<u8> {
    // RIFF, the size of what follows, WAVE.
    seq![0x52u8, 0x49, 0x46, 0x46] + bytes32(size + 60) + seq![0x57u8, 0x41, 0x56, 0x45]
    // fmt, with the extensible layout.
     + seq![0x66u8, 0x6d, 0x74, 0x20] + bytes32(40) + bytes16(0xfffe)
    // One channel, the rate, bytes per second, bytes per sample, bits.
     + bytes16(1) + bytes32(sample_rate) + bytes32(sample_rate * 4) + bytes16(4) + bytes16(32)
    // The size of the extension, valid bits, speakers.
     + bytes16(22) + bytes16(32) + bytes32(1)
    // The identifier of floating-point samples.
     + seq![
        0x03u8, 0x00, 0x00, 0x00, 0x00, 0x00, 0x10, 0x00,
        0x80, 0x00, 0x00, 0xaa, 0x00, 0x38, 0x9b, 0x71,
    ]
    // data, with its size.
     + seq![0x64u8, 0x61, 0x74, 0x61] + bytes32(size)
}

/// A mono WAV file of single precision samples.
pub open spec fn wav_file(samples: Seq<Single>, sample_rate: int) -> Seq<u8> {
    wav_header(sample_rate, 4 * samples.len() as int) + sample_bytes(samples)
}

/// Whether the sizes in the header of a WAV file can be written down.
pub open spec fn wav_fits(sample_count: int, sample_rate: int) -> bool {
    0 < sample_rate <= 0x3fff_ffff && sample_count <= 0x3fff_fff0
}

#[verifier::external_type_specification]
#[verifier::external_body]
pub struct ExWavError(hound::Error);

/// What the samples of a WAV file are.
#[derive(Clone, Copy, Debug, PartialEq, Eq, Structural)]
pub enum SampleFormat {
    Int,
    Float,
}

/// The format of a WAV file.
#[derive(Clone, Copy, Debug, PartialEq, Eq, Structural)]
pub struct WavFormat {
    pub channels: u16,
    pub sample_rate: u32,
    pub bits_per_sample: u16,
    pub sample_format: SampleFormat,
}

/// One channel of single precision samples.
pub open spec fn mono_float(sample_rate: u32) -> WavFormat {
    WavFormat { channels: 1, sample_rate, bits_per_sample: 32, sample_format: SampleFormat::Float }
}

/// Writes samples through `hound::WavWriter` (`new`, `write_sample` for each
/// sample in order, `finalize`) into memory.
///
/// The contract speaks of one channel of 32-bit floating-point samples. The
/// writer is handed the bit patterns of the samples as `i32`: at this width it
/// writes the four bytes of an `i32` as they are, as it does those of an
/// `f32`. The bytes are its header of 68 bytes for this format, with the sizes
/// filled in, and then the samples. The writer does not fail: of its own errors,
/// one is for widths that it does not know and one for channels that lack a
/// sample, and a vector in memory takes what is written to it. The writer
/// multiplies the rate and the number of samples by four and adds the header's
/// size in 32 bits, and divides by the rate, so those must fit and the rate
/// must not be zero.
#[verifier::external_body]
fn hound_wav(samples: &Vec<Single>, format: WavFormat) -> (result: Result<Vec<u8>, hound::Error>)
    requires
        format == mono_float(format.sample_rate),
        wav_fits(samples@.len() as int, format.sample_rate as int),
    ensures
        result is Ok,
        result matches Ok(bytes) ==> bytes@ == wav_file(samples@, format.sample_rate as int),
{
    let sample_format = match format.sample_format {
        SampleFormat::Int => hound::SampleFormat::Int,
        SampleFormat::Float => hound::SampleFormat::Float,
    };
    let WavFormat { channels, sample_rate, bits_per_sample, .. } = format;
    let spec = hound::WavSpec { channels, sample_rate, bits_per_sample, sample_format };
    let mut bytes = Cursor::new(Vec::new());
    let mut writer = hound::WavWriter::new(&mut bytes, spec)?;
    for sample in samples {
        writer.write_sample(sample.bits as i32)?;
    }
    writer.finalize()?;
    Ok(bytes.into_inner())
}

/// What the WAV writer gave: its bytes, or its failure as one of this library.
pub fn written_wav(outcome: Result<Vec<u8>, hound::Error>) -> (result: Result<Vec<u8>, AudioError>)
    ensures
        result == match outcome {
            Ok(bytes) => Ok::<Vec<u8>, AudioError>(bytes),
            Err(_) => Err(AudioError::Writer),
        },
{
    match outcome {
        Ok(bytes) => Ok(bytes),
        Err(_) => Err(AudioError::Writer),
    }
}

/// The bytes of a WAV file with the one waveform of an array.
///
/// `samples` are the array's values in order.
pub fn wav_float_bytes(samples: &Vec<Single>, shape: &[i32], sample_rate: u32) -> (result: Result<
    Vec<u8>,
    AudioError,
>)
    requires
        waveform_length(shape@) matches Some(length) ==> samples@.len() == length && wav_fits(
            length as int,
            sample_rate as int,
        ),
    ensures
        match result {
            Ok(bytes) => waveform_length(shape@) is Some && bytes@ == wav_file(
                samples@,
                sample_rate as int,
            ),
            Err(error) => waveform_length(shape@) is None && error == AudioError::WaveformCount,
        },
{
    match one_waveform(shape) {
        None => Err(AudioError::WaveformCount),
        Some(_) => {
            let format = WavFormat {
                channels: 1,
                sample_rate,
                bits_per_sample: 32,
                sample_format: SampleFormat::Float,
            };
            written_wav(hound_wav(samples, format))
        },
    }
}

/// A WAV file has a header of 68 bytes and four bytes for each sample, which
/// hold the sample's bit pattern.
pub proof fn lemma_wav_layout(samples: Seq<Single>, sample_rate: int, index: int)
    requires
        0 <= index < samples.len(),
    ensures
        wav_file(samples, sample_rate).len() == 68 + 4 * samples.len(),
        wav_file(samples, sample_rate).subrange(68 + 4 * index, 72 + 4 * index) == bytes32(
            samples[index].bits as int,
        ),
    decreases samples.len(),
{
    let header = wav_header(sample_rate, 4 * samples.len() as int);
    assert(header.len() == 68);
    lemma_sample_bytes(samples, index);
    assert(wav_file(samples, sample_rate).subrange(68 + 4 * index, 72 + 4 * index)
        =~= sample_bytes(samples).subrange(4 * index, 4 * index + 4));
}

proof fn lemma_sample_bytes(samples: Seq<Single>, index: int)
    requires
        0 <= index < samples.len(),
    ensures
        sample_bytes(samples).len() == 4 * samples.len(),
        sample_bytes(samples).subrange(4 * index, 4 * index + 4) == bytes32(
            samples[index].bits as int,
        ),
    decreases samples.len(),
{
    let rest = samples.drop_last();
    if rest.len() == 0 {
        assert(sample_bytes(rest) =~= seq![]);
    } else {
        lemma_sample_bytes(rest, if index < rest.len() { index } else { 0 });
    }
    if index < rest.len() {
        assert(sample_bytes(samples).subrange(4 * index, 4 * index + 4) =~= sample_bytes(
            rest,
        ).subrange(4 * index, 4 * index + 4));
    } else {
        assert(sample_bytes(samples).subrange(4 * index, 4 * index + 4) =~= bytes32(
            samples[index].bits as int,
        ));
    }
}

/// Whether `divisor` goes into `value` without a remainder.
pub open spec fn divides(divisor: int, value: int) -> bool {
    value % divisor == 0
}

/// Whether `divisor` is positive and goes into both values.
pub open spec fn common_divisor(divisor: int, left: int, right: int) -> bool {
    divisor > 0 && divides(divisor, left) && divides(divisor, right)
}

/// Whether `value` is the greatest common divisor; that of two zeros is zero.
pub open spec fn greatest_common(value: int, left: int, right: int) -> bool {
    if left == 0 && right == 0 {
        value == 0
    } else {
        &&& common_divisor(value, left, right)
        &&& forall|other: int| #[trigger]
            common_divisor(other, left, right) ==> divides(other, value) && other <= value
    }
}

proof fn lemma_divides_multiple(divisor: int, value: int, factor: int)
    requires
        divisor > 0,
        divides(divisor, value),
    ensures
        divides(divisor, value * factor),
{
    let q = value / divisor;
    lemma_fundamental_div_mod(value, divisor);
    assert(value * factor == (q * factor) * divisor) by (nonlinear_arith)
        requires
            value == divisor * q,
    ;
    lemma_mod_multiples_basic(q * factor, divisor);
}

proof fn lemma_divides_sum(divisor: int, left: int, right: int)
    requires
        divisor > 0,
        divides(divisor, left),
        divides(divisor, right),
    ensures
        divides(divisor, left + right),
        divides(divisor, left - right),
{
    let p = left / divisor;
    let q = right / divisor;
    lemma_fundamental_div_mod(left, divisor);
    lemma_fundamental_div_mod(right, divisor);
    assert(left + right == (p + q) * divisor && left - right == (p - q) * divisor)
        by (nonlinear_arith)
        requires
            left == divisor * p,
            right == divisor * q,
    ;
    lemma_mod_multiples_basic(p + q, divisor);
    lemma_mod_multiples_basic(p - q, divisor);
}

/// One step of division keeps the common divisors.
proof fn lemma_same_divisors(divisor: int, left: int, right: int)
    requires
        left >= 0,
        right > 0,
        divisor > 0,
    ensures
        common_divisor(divisor, left, right) == common_divisor(divisor, right, left % right),
{
    let q = left / right;
    lemma_fundamental_div_mod(left, right);
    if divides(divisor, right) {
        lemma_divides_multiple(divisor, right, q);
        if divides(divisor, left) {
            lemma_divides_sum(divisor, left, right * q);
        }
        if divides(divisor, left % right) {
            lemma_divides_sum(divisor, right * q, left % right);
        }
    }
}

/// A number and its negation have the same divisors.
proof fn lemma_divides_negation(divisor: int, value: int)
    requires
        divisor > 0,
    ensures
        divides(divisor, value) == divides(divisor, -value),
{
    if divides(divisor, value) {
        lemma_divides_multiple(divisor, value, -1);
    }
    if divides(divisor, -value) {
        lemma_divides_multiple(divisor, -value, -1);
    }
}

/// The absolute value of an `i32`.
fn magnitude(value: i32) -> (result: u32)
    ensures
        result == vstd::math::abs(value as int),
{
    if value < 0 {
        (0 - value as i64) as u32
    } else {
        value as u32
    }
}

/// The greatest common divisor of two numbers.
pub fn greatest_common_divisor(left: i32, right: i32) -> (result: i32)
    requires
        left == i32::MIN ==> right != 0 && right != -1 && right != i32::MIN,
        right == i32::MIN ==> left != 0 && left != -1,
    ensures
        greatest_common(result as int, left as int, right as int),
        result >= 0,
{
    let mut a: u32 = magnitude(left);
    let mut b: u32 = magnitude(right);
    proof {
        assert forall|d: int| #[trigger]
            common_divisor(d, left as int, right as int) == common_divisor(
                d,
                a as int,
                b as int,
            ) by {
            if d > 0 {
                lemma_divides_negation(d, left as int);
                lemma_divides_negation(d, right as int);
            }
        }
    }
    while b != 0
        invariant
            a == 0 && b == 0 <==> left == 0 && right == 0,
            forall|d: int| #[trigger]
                common_divisor(d, left as int, right as int) == common_divisor(
                    d,
                    a as int,
                    b as int,
                ),
        decreases b,
    {
        let remainder: u32 = a % b;
        proof {
            assert forall|d: int| #[trigger]
                common_divisor(d, left as int, right as int) == common_divisor(
                    d,
                    b as int,
                    remainder as int,
                ) by {
                if d > 0 {
                    lemma_same_divisors(d, a as int, b as int);
                }
            }
            lemma_mod_bound(a as int, b as int);
        }
        a = b;
        b = remainder;
    }
    proof {
        if a > 0 {
            lemma_mod_self_0(a as int);
            lemma_small_mod(0, a as nat);
            assert(common_divisor(a as int, a as int, 0));
            assert(common_divisor(a as int, left as int, right as int));
            assert forall|other: int| #[trigger]
                common_divisor(other, left as int, right as int) implies divides(other, a as int)
                && other <= a by {
                if other > a {
                    lemma_small_mod(a as nat, other as nat);
                }
            }
            // The largest magnitude divides only itself and zero.
            if a > i32::MAX {
                lemma_fundamental_div_mod(left as int, a as int);
                lemma_fundamental_div_mod(right as int, a as int);
                lemma_large_divisor(a as int, left as int);
                lemma_large_divisor(a as int, right as int);
            }
        }
    }
    a as i32
}

/// A divisor above the largest `i32` goes into zero and the smallest `i32`
/// only.
proof fn lemma_large_divisor(divisor: int, value: int)
    requires
        divisor > i32::MAX,
        i32::MIN <= value <= i32::MAX,
        divides(divisor, value),
    ensures
        value == 0 || value == i32::MIN,
{
    lemma_fundamental_div_mod(value, divisor);
    let q = value / divisor;
    assert(q == 0 || value == i32::MIN) by (nonlinear_arith)
        requires
            value == divisor * q,
            divisor > i32::MAX,
            i32::MIN <= value <= i32::MAX,
    ;
}

/// The greatest common divisor as a value.
pub open spec fn gcd(left: int, right: int) -> int {
    choose|value: int| greatest_common(value, left, right)
}

/// There is one greatest common divisor.
proof fn lemma_gcd(value: int, left: int, right: int)
    requires
        greatest_common(value, left, right),
    ensures
        gcd(left, right) == value,
{
    let other = gcd(left, right);
    if !(left == 0 && right == 0) {
        assert(common_divisor(value, left, right));
        assert(common_divisor(other, left, right));
    }
}

/// The bank of filters that a resampler runs over a waveform.
#[derive(Clone, Copy, Debug, PartialEq, Eq, Structural)]
pub struct SincKernel {
    /// One filter for each output sample of a period.
    pub phases: i32,
    /// The length of each filter.
    pub taps: i32,
    /// Input samples of a period.
    pub stride: i32,
}

/// Converts waveforms from one rate to another.
#[derive(Clone, Copy, Debug, PartialEq, Eq, Structural)]
pub struct SincResampler {
    pub original_rate: i32,
    pub target_rate: i32,
    pub reduced_original_rate: i32,
    pub reduced_target_rate: i32,
    /// Samples that a filter reaches back.
    pub width: i32,
    /// Absent where the rates are equal.
    pub convolution: Option<SincKernel>,
}

/// How a waveform is resampled.
#[derive(Clone, Copy, Debug, PartialEq, Eq, Structural)]
pub enum Resampling {
    /// The waveform stays as it is.
    Unchanged,
    Convolve {
        /// Zeros before the waveform.
        left: i32,
        /// Zeros after the waveform.
        right: i32,
        /// Samples that the filters give.
        produced: i32,
        /// Samples that are kept of them.
        target_length: i32,
    },
}

/// The cut-off of the filter in cycles per period: 0.99 of the smaller rate,
/// in double precision.
pub open spec fn cutoff(reduced_original: nat, reduced_target: nat) -> Scaled {
    let smaller = if reduced_original < reduced_target {
        reduced_original
    } else {
        reduced_target
    };
    rounding::product(
        lengths::whole(smaller),
        Scaled { mantissa: 0x1f_ae14_7ae1_47ae, exponent: -53 },
        53,
    )
}

/// How far a filter reaches: `lowpass * original / cutoff` in double
/// precision, rounded up.
pub open spec fn reach(reduced_original: nat, reduced_target: nat, lowpass: nat) -> int {
    rounding::capped(
        rounding::ceiling(
            rounding::quotient(
                rounding::nearest(lowpass * reduced_original, 1, 53),
                cutoff(reduced_original, reduced_target),
                53,
            ),
        ),
    )
}

/// Whether the filters for these rates have a length that an `i32` holds.
pub open spec fn kernel_fits(original_rate: int, target_rate: int, lowpass: int) -> bool {
    let divisor = gcd(original_rate, target_rate);
    let original = original_rate / divisor;
    2 * reach(original as nat, (target_rate / divisor) as nat, lowpass as nat) + original
        <= i32::MAX
}

/// The resampler for two positive rates.
pub open spec fn resampler(original_rate: i32, target_rate: i32, lowpass: int) -> SincResampler {
    if original_rate == target_rate {
        SincResampler {
            original_rate,
            target_rate,
            reduced_original_rate: 1,
            reduced_target_rate: 1,
            width: 0,
            convolution: None,
        }
    } else {
        let divisor = gcd(original_rate as int, target_rate as int);
        let original = original_rate as int / divisor;
        let target = target_rate as int / divisor;
        let width = reach(original as nat, target as nat, lowpass as nat);
        SincResampler {
            original_rate,
            target_rate,
            reduced_original_rate: original as i32,
            reduced_target_rate: target as i32,
            width: width as i32,
            convolution: Some(
                (SincKernel {
                    phases: target as i32,
                    taps: (2 * width + original) as i32,
                    stride: original as i32,
                }),
            ),
        }
    }
}

/// The cut-off, see [`cutoff`].
fn cutoff_of(reduced_original: i32, reduced_target: i32) -> (result: Dyadic)
    requires
        reduced_original > 0,
        reduced_target > 0,
    ensures
        result@ == cutoff(reduced_original as nat, reduced_target as nat),
        0 < result.mantissa <= 0x20_0000_0000_0000,
        -256 <= result.exponent <= 256,
{
    let smaller = if reduced_original < reduced_target {
        reduced_original
    } else {
        reduced_target
    };
    let share = Dyadic { mantissa: 0x1f_ae14_7ae1_47ae, exponent: -53 };
    proof {
        rounding::lemma_nearest_positive(
            smaller as nat * 0x1f_ae14_7ae1_47ae,
            1,
            53,
        );
    }
    rounding::multiply(Dyadic { mantissa: smaller as u64, exponent: 0 }, share, Precision::Double)
}

/// See [`reach`].
fn reach_of(reduced_original: i32, reduced_target: i32, lowpass: i32) -> (result: i32)
    requires
        reduced_original > 0,
        reduced_target > 0,
        lowpass > 0,
    ensures
        result == reach(reduced_original as nat, reduced_target as nat, lowpass as nat),
        result >= 0,
{
    assert(0 <= lowpass as int * reduced_original as int <= 0x7fff_ffff * 0x7fff_ffff)
        by (nonlinear_arith)
        requires
            0 <= lowpass <= 0x7fff_ffff,
            0 <= reduced_original <= 0x7fff_ffff,
    ;
    let total: u128 = lowpass as u128 * reduced_original as u128;
    let product = rounding::round_ratio(total, 1, Precision::Double);
    let base = cutoff_of(reduced_original, reduced_target);
    rounding::ceiling_capped(rounding::divide(product, base, Precision::Double))
}

/// Two positive rates without their common factor.
fn reduced(original_rate: i32, target_rate: i32) -> (result: (i32, i32))
    requires
        original_rate > 0,
        target_rate > 0,
    ensures
        result.0 == original_rate as int / gcd(original_rate as int, target_rate as int),
        result.1 == target_rate as int / gcd(original_rate as int, target_rate as int),
        result.0 > 0,
        result.1 > 0,
{
    let divisor = greatest_common_divisor(original_rate, target_rate);
    proof {
        lemma_gcd(divisor as int, original_rate as int, target_rate as int);
        lemma_reduced(original_rate as int, target_rate as int);
    }
    (original_rate / divisor, target_rate / divisor)
}

/// Reduced rates are in the proportion of the rates and have no common
/// factor.
pub proof fn lemma_reduced(original_rate: int, target_rate: int)
    requires
        0 < original_rate <= i32::MAX,
        0 < target_rate <= i32::MAX,
    ensures
        ({
            let divisor = gcd(original_rate, target_rate);
            let original = original_rate / divisor;
            let target = target_rate / divisor;
            &&& greatest_common(divisor, original_rate, target_rate)
            &&& divisor > 0
            &&& original > 0
            &&& target > 0
            &&& original * divisor == original_rate
            &&& target * divisor == target_rate
            &&& original * target_rate == target * original_rate
            &&& gcd(original, target) == 1
        }),
{
    lemma_gcd_exists(original_rate, target_rate);
    let divisor = gcd(original_rate, target_rate);
    let original = original_rate / divisor;
    let target = target_rate / divisor;
    lemma_fundamental_div_mod(original_rate, divisor);
    lemma_fundamental_div_mod(target_rate, divisor);
    assert(original > 0 && original * divisor == original_rate) by (nonlinear_arith)
        requires
            original_rate == divisor * original,
            divisor > 0,
            original_rate > 0,
    ;
    assert(target > 0 && target * divisor == target_rate) by (nonlinear_arith)
        requires
            target_rate == divisor * target,
            divisor > 0,
            target_rate > 0,
    ;
    assert(original * target_rate == target * original_rate) by (nonlinear_arith)
        requires
            original * divisor == original_rate,
            target * divisor == target_rate,
    ;
    assert(common_divisor(1, original, target)) by {
        lemma_mod_multiples_basic(original, 1);
        lemma_mod_multiples_basic(target, 1);
    }
    assert forall|other: int| #[trigger] common_divisor(other, original, target) implies divides(
        other,
        1,
    ) && other <= 1 by {
        let p = original / other;
        let q = target / other;
        lemma_fundamental_div_mod(original, other);
        lemma_fundamental_div_mod(target, other);
        let larger = other * divisor;
        assert(original_rate == p * larger && target_rate == q * larger && larger > 0)
            by (nonlinear_arith)
            requires
                original == other * p,
                target == other * q,
                original * divisor == original_rate,
                target * divisor == target_rate,
                larger == other * divisor,
                other > 0,
                divisor > 0,
        ;
        lemma_mod_multiples_basic(p, larger);
        lemma_mod_multiples_basic(q, larger);
        assert(common_divisor(larger, original_rate, target_rate));
        assert(other == 1) by (nonlinear_arith)
            requires
                larger == other * divisor,
                larger <= divisor,
                other > 0,
                divisor > 0,
        ;
        lemma_mod_self_0(1);
    }
    assert(greatest_common(1, original, target));
    lemma_gcd(1, original, target);
}

/// Every two positive numbers have a greatest common divisor.
proof fn lemma_gcd_exists(left: int, right: int)
    requires
        left >= 0,
        right >= 0,
    ensures
        greatest_common(gcd(left, right), left, right),
    decreases right,
{
    let value = if right == 0 {
        if left > 0 {
            lemma_mod_self_0(left);
            lemma_small_mod(0, left as nat);
            assert forall|other: int| #[trigger] common_divisor(other, left, 0) implies divides(
                other,
                left,
            ) && other <= left by {
                if other > left {
                    lemma_small_mod(left as nat, other as nat);
                }
            }
        }
        left
    } else {
        lemma_mod_bound(left, right);
        lemma_gcd_exists(right, left % right);
        let value = gcd(right, left % right);
        lemma_same_divisors(value, left, right);
        assert(common_divisor(value, left, right));
        assert forall|other: int| #[trigger] common_divisor(other, left, right) implies divides(
            other,
            value,
        ) && other <= value by {
            lemma_same_divisors(other, left, right);
        }
        value
    };
    assert(greatest_common(value, left, right));
}

impl SincResampler {
    /// Whether the parts fit together.
    pub open spec fn valid(self) -> bool {
        &&& self.original_rate > 0
        &&& self.target_rate > 0
        &&& self.reduced_original_rate > 0
        &&& self.reduced_target_rate > 0
        &&& self.width >= 0
        &&& self.convolution is None <==> self.original_rate == self.target_rate
        &&& self.convolution matches Some(kernel) ==> {
            &&& kernel.phases == self.reduced_target_rate
            &&& kernel.taps == 2 * self.width + self.reduced_original_rate
            &&& kernel.stride == self.reduced_original_rate
        }
    }

    /// Whether the filters for these rates have a length that an `i32` holds.
    pub fn fits(original_rate: i32, target_rate: i32, lowpass_filter_width: i32) -> (result: bool)
        requires
            original_rate > 0,
            target_rate > 0,
            lowpass_filter_width > 0,
        ensures
            result == kernel_fits(
                original_rate as int,
                target_rate as int,
                lowpass_filter_width as int,
            ),
    {
        let (original, target) = reduced(original_rate, target_rate);
        let width = reach_of(original, target, lowpass_filter_width);
        2 * width as i64 + original as i64 <= i32::MAX as i64
    }

    /// Prepares the conversion from one rate to another.
    pub fn new(original_rate: i32, target_rate: i32, lowpass_filter_width: i32) -> (result: Result<
        Self,
        AudioError,
    >)
        requires
            original_rate > 0 && target_rate > 0 && lowpass_filter_width > 0 && original_rate
                != target_rate ==> kernel_fits(
                original_rate as int,
                target_rate as int,
                lowpass_filter_width as int,
            ),
        ensures
            match result {
                Ok(value) => {
                    &&& original_rate > 0
                    &&& target_rate > 0
                    &&& lowpass_filter_width > 0
                    &&& value == resampler(original_rate, target_rate, lowpass_filter_width as int)
                    &&& value.valid()
                },
                Err(AudioError::OriginalRate) => original_rate <= 0,
                Err(AudioError::TargetRate) => original_rate > 0 && target_rate <= 0,
                Err(error) => original_rate > 0 && target_rate > 0 && lowpass_filter_width <= 0
                    && error == AudioError::FilterWidth,
            },
    {
        if original_rate <= 0 {
            return Err(AudioError::OriginalRate);
        }
        if target_rate <= 0 {
            return Err(AudioError::TargetRate);
        }
        if lowpass_filter_width <= 0 {
            return Err(AudioError::FilterWidth);
        }
        if original_rate == target_rate {
            return Ok(
                Self {
                    original_rate,
                    target_rate,
                    reduced_original_rate: 1,
                    reduced_target_rate: 1,
                    width: 0,
                    convolution: None,
                },
            );
        }
        let (reduced_original_rate, reduced_target_rate) = reduced(original_rate, target_rate);
        let width = reach_of(reduced_original_rate, reduced_target_rate, lowpass_filter_width);
        let kernel = SincKernel {
            phases: reduced_target_rate,
            taps: 2 * width + reduced_original_rate,
            stride: reduced_original_rate,
        };
        Ok(
            Self {
                original_rate,
                target_rate,
                reduced_original_rate,
                reduced_target_rate,
                width,
                convolution: Some(kernel),
            },
        )
    }

    /// Samples that the filters give for a waveform of `length` samples.
    pub open spec fn produced(self, length: int) -> int {
        (length / self.reduced_original_rate as int + 1) * self.reduced_target_rate
    }

    /// Whether a waveform of `length` samples can be held on the way.
    pub open spec fn has_room(self, length: int) -> bool {
        self.convolution is Some ==> {
            &&& length + 2 * self.width + self.reduced_original_rate <= i32::MAX
            &&& self.produced(length) <= i32::MAX
        }
    }

    /// See [`SincResampler::has_room`].
    pub fn room_for(&self, length: i32) -> (result: bool)
        requires
            self.valid(),
            length >= 0,
        ensures
            result == self.has_room(length as int),
    {
        if self.convolution.is_none() {
            return true;
        }
        let periods: i64 = (length / self.reduced_original_rate) as i64 + 1;
        assert(0 <= periods as int * self.reduced_target_rate as int <= 0x8000_0000
            * 0x7fff_ffff) by (nonlinear_arith)
            requires
                0 <= periods <= 0x8000_0000,
                0 <= self.reduced_target_rate <= 0x7fff_ffff,
        ;
        length as i64 + 2 * self.width as i64 + self.reduced_original_rate as i64
            <= i32::MAX as i64 && periods * self.reduced_target_rate as i64 <= i32::MAX as i64
    }

    /// What is done with waveforms of `length` samples.
    pub open spec fn plan(self, length: int) -> Resampling {
        if self.convolution is None {
            Resampling::Unchanged
        } else {
            Resampling::Convolve {
                left: self.width,
                right: (self.width + self.reduced_original_rate) as i32,
                produced: self.produced(length) as i32,
                target_length: lengths::scaled_up(
                    length as nat,
                    self.reduced_target_rate as nat,
                    self.reduced_original_rate as nat,
                ) as i32,
            }
        }
    }

    /// Plans the conversion of an array of waveforms.
    ///
    /// The filters always give as many samples as are kept.
    pub fn resample(&self, shape: &[i32], float32: bool) -> (result: Result<Resampling, AudioError>)
        requires
            self.valid(),
            shape@.len() == 2 ==> shape@[1] >= 0 && self.has_room(shape@[1] as int),
        ensures
            match result {
                Err(AudioError::WaveformRank) => shape@.len() != 2,
                Err(error) => shape@.len() == 2 && !float32 && error == AudioError::WaveformType,
                Ok(plan) => {
                    &&& shape@.len() == 2
                    &&& float32
                    &&& plan == self.plan(shape@[1] as int)
                    &&& plan matches Resampling::Convolve { produced, target_length, .. }
                        ==> 0 <= target_length <= produced
                },
            },
    {
        if shape.len() != 2 {
            return Err(AudioError::WaveformRank);
        }
        if !float32 {
            return Err(AudioError::WaveformType);
        }
        if self.convolution.is_none() {
            return Ok(Resampling::Unchanged);
        }
        let length = shape[1];
        let left = self.width;
        let right: i32 = self.width + self.reduced_original_rate;
        let periods: i32 = length / self.reduced_original_rate;
        proof {
            lemma_enough_produced(
                length as nat,
                self.reduced_target_rate as nat,
                self.reduced_original_rate as nat,
            );
            assert(periods + 1 <= self.produced(length as int)) by (nonlinear_arith)
                requires
                    self.produced(length as int) == (periods + 1) * self.reduced_target_rate,
                    self.reduced_target_rate >= 1,
                    periods >= 0,
            ;
        }
        let produced: i32 = (periods + 1) * self.reduced_target_rate;
        let target_length = lengths::scaled_length(
            length,
            self.reduced_target_rate,
            self.reduced_original_rate,
        );
        Ok(Resampling::Convolve { left, right, produced, target_length })
    }

    pub fn original_rate(&self) -> (rate: i32)
        ensures
            rate == self.original_rate,
    {
        self.original_rate
    }

    pub fn target_rate(&self) -> (rate: i32)
        ensures
            rate == self.target_rate,
    {
        self.target_rate
    }

    /// The filters, laid over the padded waveform a period apart, give one
    /// output period for each started input period.
    pub proof fn lemma_produced(self, length: int)
        requires
            self.valid(),
            length >= 0,
        ensures
            self.convolution matches Some(kernel) ==> self.produced(length) == shapes::frames_in(
                length + self.width + (self.width + self.reduced_original_rate),
                kernel.taps as int,
                kernel.stride as int,
            ) * kernel.phases,
    {
    }
}

/// The filters of a resampler are laid over the waveform a reduced period apart,
/// one for each sample of the period that comes out. Each reaches equally far
/// before the first sample of its period and after the last one, and is laid with
/// that sample under its centre: so much padding is put before the waveform, and
/// a period more after it.
pub proof fn lemma_filters(original_rate: i32, target_rate: i32, lowpass: int, length: int)
    requires
        0 < original_rate,
        0 < target_rate,
        0 < lowpass <= i32::MAX,
        original_rate != target_rate,
        kernel_fits(original_rate as int, target_rate as int, lowpass),
        0 <= length,
        resampler(original_rate, target_rate, lowpass).has_room(length),
    ensures
        ({
            let converter = resampler(original_rate, target_rate, lowpass);
            &&& converter.original_rate == original_rate
            &&& converter.target_rate == target_rate
            &&& converter.convolution matches Some(kernel) && {
                &&& kernel.stride * target_rate == kernel.phases * original_rate
                &&& 0 < kernel.stride <= original_rate
                &&& 0 < kernel.phases <= target_rate
                &&& forall|other: int|
                    #![trigger divides(other, kernel.stride as int)]
                    other > 1 && divides(other, kernel.stride as int) ==> !divides(
                        other,
                        kernel.phases as int,
                    )
                &&& converter.plan(length) matches Resampling::Convolve {
                    left,
                    right,
                    produced,
                    target_length,
                } && {
                    &&& 0 <= left
                    &&& kernel.taps == left + kernel.stride + left
                    &&& right == left + kernel.stride
                    &&& produced == shapes::frames_in(
                        left + length + right,
                        kernel.taps as int,
                        kernel.stride as int,
                    ) * kernel.phases
                    &&& target_length == resampled_length(original_rate, target_rate, length)
                }
            }
        }),
{
    let converter = resampler(original_rate, target_rate, lowpass);
    lemma_reduced(original_rate as int, target_rate as int);
    let divisor = gcd(original_rate as int, target_rate as int);
    let original = original_rate as int / divisor;
    let target = target_rate as int / divisor;
    assert(original * target_rate == target * original_rate) by (nonlinear_arith)
        requires
            original * divisor == original_rate,
            target * divisor == target_rate,
    ;
    assert(original <= original_rate && target <= target_rate) by (nonlinear_arith)
        requires
            original * divisor == original_rate,
            target * divisor == target_rate,
            divisor > 0,
            original > 0,
            target > 0,
    ;
    converter.lemma_produced(length);
    lemma_gcd_exists(original, target);
    assert forall|other: int|
        #![trigger divides(other, original)]
        other > 1 && divides(other, original) implies !divides(other, target) by {
        if divides(other, target) {
            assert(common_divisor(other, original, target));
        }
    }
    let kernel = converter.convolution->0;
    assert(kernel.stride == original && kernel.phases == target);
    assert(converter.produced(length) >= 0) by (nonlinear_arith)
        requires
            converter.produced(length) == (length / original + 1) * target,
            length >= 0,
            original > 0,
            target > 0,
    ;
    let covered = length + converter.width + (converter.width + original);
    assert(converter.width + length + (converter.width + original) == covered);
}

/// Whether a waveform of `length` samples can be converted between two rates
/// within the limits of an `i32`, where the rates are positive.
pub open spec fn convertible(
    original_rate: i32,
    target_rate: i32,
    lowpass: i32,
    length: int,
) -> bool {
    original_rate > 0 && original_rate != target_rate ==> kernel_fits(
        original_rate as int,
        target_rate as int,
        lowpass as int,
    ) && resampler(original_rate, target_rate, lowpass as int).has_room(length)
}

/// See [`convertible`].
pub fn can_convert(original_rate: i32, target_rate: i32, lowpass: i32, length: i32) -> (result:
    bool)
    requires
        target_rate > 0,
        lowpass > 0,
        length >= 0,
    ensures
        result == convertible(original_rate, target_rate, lowpass, length as int),
{
    if original_rate <= 0 || original_rate == target_rate {
        return true;
    }
    if !SincResampler::fits(original_rate, target_rate, lowpass) {
        return false;
    }
    match SincResampler::new(original_rate, target_rate, lowpass) {
        Ok(converter) => converter.room_for(length),
        Err(_) => false,
    }
}

/// The number of samples that a resampled waveform has.
pub open spec fn resampled_length(original_rate: i32, target_rate: i32, length: int) -> int {
    if original_rate == target_rate {
        length
    } else {
        let divisor = gcd(original_rate as int, target_rate as int);
        lengths::scaled_up(
            length as nat,
            (target_rate as int / divisor) as nat,
            (original_rate as int / divisor) as nat,
        )
    }
}

/// See [`resampled_length`].
pub fn length_at(original_rate: i32, target_rate: i32, length: i32) -> (result: i32)
    requires
        original_rate > 0,
        target_rate > 0,
        length >= 0,
    ensures
        result == resampled_length(original_rate, target_rate, length as int),
        result >= 0,
{
    if original_rate == target_rate {
        return length;
    }
    let (original, target) = reduced(original_rate, target_rate);
    lengths::scaled_length(length, target, original)
}

/// The length that is kept of a resampled waveform is at most what whole
/// periods give, in spite of the rounding on the way.
pub proof fn lemma_enough_produced(length: nat, target: nat, original: nat)
    requires
        length <= i32::MAX,
        0 < target <= i32::MAX,
        0 < original <= i32::MAX,
        (length / original + 1) * target <= i32::MAX,
    ensures
        lengths::scaled_up(length, target, original) <= (length / original + 1) * target,
{
    let periods = length / original + 1;
    let bound: nat = (periods * target) as nat;
    let total = target * length;
    let x = rounding::nearest(total, 1, 53);
    lemma_fundamental_div_mod(length as int, original as int);
    lemma_mod_bound(length as int, original as int);
    assert(original * periods == original * (length / original) + original) by (nonlinear_arith)
        requires
            periods == length / original + 1,
    ;
    assert(total + target <= bound * original) by (nonlinear_arith)
        requires
            length + 1 <= original * periods,
            total == target * length,
            bound == periods * target,
            target > 0,
    ;
    // The first rounding adds at most `target`.
    rounding::lemma_nearest_integer_error(total, 53);
    lemma2_to64();
    lemma2_to64_rest();
    assert(total <= target * 0x8000_0000) by (nonlinear_arith)
        requires
            total == target * length,
            length <= 0x8000_0000,
    ;
    let limit = Scaled { mantissa: bound, exponent: -x.exponent };
    if x.exponent >= 0 {
        let p = pow2(x.exponent as nat);
        let low = pow2(52);
        assert(total > 0 ==> p <= target) by (nonlinear_arith)
            requires
                total > 0 ==> low * p <= total,
                low == 0x10_0000_0000_0000,
                total <= target * 0x8000_0000,
        ;
        if total == 0 {
            assert(x.mantissa * p == 0) by (nonlinear_arith)
                requires
                    x.mantissa == 0,
            ;
        }
        assert(x.mantissa * p <= bound * original);
        if x.exponent == 0 {
            assert(x.mantissa * p == x.mantissa) by (nonlinear_arith)
                requires
                    p == 1,
            ;
            assert(original * 1 == original);
        }
        assert(rounding::ratio_at_most(x.mantissa, original, limit));
    } else {
        let p = pow2((-x.exponent) as nat);
        assert(x.mantissa <= bound * (original * p)) by (nonlinear_arith)
            requires
                x.mantissa == total * p,
                total <= bound * original,
        ;
        assert(rounding::ratio_at_most(x.mantissa, original, limit));
    }
    rounding::lemma_nearest_at_most(x.mantissa, original, 53, limit);
    let q = rounding::quotient(x, lengths::whole(original), 53);
    rounding::lemma_ceiling_at_most(q, bound);
}

/// Up to a target rate of 2^21, a resampled waveform has exactly the samples
/// that its duration takes: their number is the smallest integer that is not
/// below `length * target_rate / original_rate`, as far as an `i32` goes.
pub proof fn lemma_resampled_length(
    original_rate: i32,
    target_rate: i32,
    length: int,
    resampled: nat,
)
    requires
        0 < original_rate,
        0 < target_rate <= 0x20_0000,
        0 <= length <= i32::MAX,
        resampled > 0 ==> (resampled - 1) * original_rate < length * target_rate,
        length * target_rate <= resampled * original_rate,
    ensures
        resampled_length(original_rate, target_rate, length) == if resampled <= i32::MAX {
            resampled as int
        } else {
            i32::MAX as int
        },
{
    if original_rate == target_rate {
        assert(resampled == length) by (nonlinear_arith)
            requires
                resampled > 0 ==> (resampled - 1) * original_rate < length * original_rate,
                length * original_rate <= resampled * original_rate,
                original_rate > 0,
                length >= 0,
        ;
    } else {
        lemma_reduced(original_rate as int, target_rate as int);
        let divisor = gcd(original_rate as int, target_rate as int);
        let original = original_rate as int / divisor;
        let target = target_rate as int / divisor;
        assert(target * length < 0x10_0000_0000_0000) by (nonlinear_arith)
            requires
                target * divisor == target_rate,
                0 < target_rate <= 0x20_0000,
                0 <= length <= 0x7fff_ffff,
                divisor > 0,
                target > 0,
        ;
        assert(target * length <= resampled * original && (resampled > 0 ==> (resampled - 1)
            * original < target * length)) by (nonlinear_arith)
            requires
                original * divisor == original_rate,
                target * divisor == target_rate,
                divisor > 0,
                resampled > 0 ==> (resampled - 1) * original_rate < length * target_rate,
                length * target_rate <= resampled * original_rate,
        ;
        assert(target * length >= 0) by (nonlinear_arith)
            requires
                target > 0,
                length >= 0,
        ;
        lengths::lemma_scaled_up_exact(
            length as nat,
            target as nat,
            original as nat,
            resampled,
        );
    }
}

/// How rows of values are stretched to another length.
#[derive(Clone, Copy, Debug, PartialEq, Eq, Structural)]
pub enum Interpolation {
    /// The rows have the length already.
    Unchanged,
    /// The one value of each row is repeated.
    Broadcast { rows: i32, target_length: i32 },
    /// Values are taken between neighbours.
    Linear { rows: i32, input_length: i32, target_length: i32 },
}

/// How rows of `input_length` values are stretched.
pub open spec fn interpolation(rows: i32, input_length: i32, target_length: i32) -> Interpolation {
    if input_length == target_length {
        Interpolation::Unchanged
    } else if input_length == 1 {
        Interpolation::Broadcast { rows, target_length }
    } else {
        Interpolation::Linear { rows, input_length, target_length }
    }
}

/// Rows that have the length already are left alone, a single value is repeated
/// up to it, and all others are interpolated from their length to that one.
pub proof fn lemma_interpolation(rows: i32, input_length: i32, target_length: i32)
    ensures
        match interpolation(rows, input_length, target_length) {
            Interpolation::Unchanged => input_length == target_length,
            Interpolation::Broadcast { rows: kept, target_length: length } => input_length == 1
                && target_length != 1 && kept == rows && length == target_length,
            Interpolation::Linear { rows: kept, input_length: from, target_length: length } =>
                input_length != 1 && input_length != target_length && kept == rows && from
                    == input_length && length == target_length,
        },
{
}

/// Loudness is measured in frames of two hops, each hop half the samples of a
/// second, centred on the multiples of the hop. Every waveform is measured at its
/// own rate, and both measurements are stretched to the length of the output.
pub proof fn lemma_loudness(
    source_length: int,
    source_rate: int,
    output_length: int,
    output_rate: int,
)
    requires
        measurable(source_length, source_rate),
        measurable(output_length, output_rate),
    ensures
        ({
            let plan = loudness_plan(source_length, source_rate, output_length, output_rate);
            let source = plan.source_frames;
            let output = plan.output_frames;
            &&& source.hop + source.hop <= source_rate <= source.hop + source.hop + 1
            &&& source.frame_length == 2 * source.hop
            &&& source.left == source.right == source.hop
            &&& source.padded_length == source_length + 2 * source.hop
            &&& (source.frame_count - 1) * source.hop <= source_length < source.frame_count
                * source.hop
            &&& output.hop + output.hop <= output_rate <= output.hop + output.hop + 1
            &&& output.frame_length == 2 * output.hop
            &&& output.left == output.right == output.hop
            &&& output.padded_length == output_length + 2 * output.hop
            &&& (output.frame_count - 1) * output.hop <= output_length < output.frame_count
                * output.hop
            &&& plan.target_length == output_length
            &&& plan.source_stretch == interpolation(1, source.frame_count, output_length as i32)
            &&& plan.output_stretch == interpolation(1, output.frame_count, output_length as i32)
        }),
{
    shapes::lemma_centered(source_length, source_rate / 2 * 2, source_rate / 2);
    shapes::lemma_centered(output_length, output_rate / 2 * 2, output_rate / 2);
}

/// Plans a linear interpolation of the rows of an array to a given length.
pub fn interpolate_linear_1d_to_length(shape: &[i32], target_length: i32) -> (result: Result<
    Interpolation,
    AudioError,
>)
    ensures
        match result {
            Ok(plan) => {
                &&& shape@.len() == 2
                &&& shape@[1] > 0
                &&& target_length > 0
                &&& plan == interpolation(shape@[0], shape@[1], target_length)
            },
            Err(AudioError::InterpolationRank) => shape@.len() != 2,
            Err(AudioError::InterpolationInput) => shape@.len() == 2 && shape@[1] <= 0,
            Err(error) => shape@.len() == 2 && shape@[1] > 0 && target_length <= 0 && error
                == AudioError::InterpolationTarget,
        },
{
    if shape.len() != 2 {
        return Err(AudioError::InterpolationRank);
    }
    if shape[1] <= 0 {
        return Err(AudioError::InterpolationInput);
    }
    if target_length <= 0 {
        return Err(AudioError::InterpolationTarget);
    }
    let input_length = shape[1];
    if input_length == target_length {
        return Ok(Interpolation::Unchanged);
    }
    if input_length == 1 {
        return Ok(Interpolation::Broadcast { rows: shape[0], target_length });
    }
    Ok(Interpolation::Linear { rows: shape[0], input_length, target_length })
}

/// How the loudness of one waveform is brought to that of another: both are
/// measured in frames of about a second, half a second apart, and the
/// measurements are stretched to the length of the output.
#[derive(Clone, Copy, Debug, PartialEq, Eq, Structural)]
pub struct LoudnessPlan {
    pub source_frames: FrameLayout,
    pub output_frames: FrameLayout,
    pub source_stretch: Interpolation,
    pub output_stretch: Interpolation,
    pub target_length: i32,
}

/// The frames in which loudness is measured.
pub open spec fn loudness_frames(length: int, sample_rate: int) -> FrameLayout {
    shapes::centered(length, sample_rate / 2 * 2, sample_rate / 2)
}

/// What is done with waveforms of these lengths.
pub open spec fn loudness_plan(
    source_length: int,
    source_rate: int,
    output_length: int,
    output_rate: int,
) -> LoudnessPlan {
    let source_frames = loudness_frames(source_length, source_rate);
    let output_frames = loudness_frames(output_length, output_rate);
    LoudnessPlan {
        source_frames,
        output_frames,
        source_stretch: interpolation(1, source_frames.frame_count, output_length as i32),
        output_stretch: interpolation(1, output_frames.frame_count, output_length as i32),
        target_length: output_length as i32,
    }
}

/// Whether a waveform can be framed for a loudness measurement: there must be
/// a hop of at least one sample, and the padded waveform must have a length.
pub open spec fn measurable(length: int, sample_rate: int) -> bool {
    sample_rate >= 2 && length >= 0 && length + sample_rate < i32::MAX
}

/// Plans how the loudness of `output` is adjusted to that of `source`.
pub fn adjust_loudness_envelope(
    source: &[i32],
    source_sample_rate: i32,
    output: &[i32],
    output_sample_rate: i32,
) -> (result: Result<LoudnessPlan, AudioError>)
    requires
        shapes::is_single_row(source@) && source_sample_rate > 0 && output_sample_rate > 0 ==> (
        waveform_length(output@) matches Some(length) ==> measurable(
            source@[1] as int,
            source_sample_rate as int,
        ) && measurable(length as int, output_sample_rate as int)),
    ensures
        match result {
            Err(AudioError::LoudnessSource) => !shapes::is_single_row(source@),
            Err(AudioError::LoudnessOutput) => shapes::is_single_row(source@) && waveform_length(
                output@,
            ) is None,
            Err(AudioError::SampleRates) => {
                &&& shapes::is_single_row(source@)
                &&& waveform_length(output@) is Some
                &&& source_sample_rate <= 0 || output_sample_rate <= 0
            },
            Err(error) => {
                &&& error == AudioError::InterpolationTarget
                &&& shapes::is_single_row(source@)
                &&& waveform_length(output@) == Some(0i32)
                &&& source_sample_rate > 0
                &&& output_sample_rate > 0
            },
            Ok(plan) => {
                &&& shapes::is_single_row(source@)
                &&& source_sample_rate > 0
                &&& output_sample_rate > 0
                &&& waveform_length(output@) matches Some(length) && length > 0 && plan
                    == loudness_plan(
                    source@[1] as int,
                    source_sample_rate as int,
                    length as int,
                    output_sample_rate as int,
                )
                &&& plan.source_frames.inside()
                &&& plan.output_frames.inside()
                &&& plan.source_frames.frame_count >= 1
                &&& plan.output_frames.frame_count >= 1
            },
        },
{
    if !shapes::single_row(source) {
        return Err(AudioError::LoudnessSource);
    }
    let target_length = match one_waveform(output) {
        Some(length) => length,
        None => return Err(AudioError::LoudnessOutput),
    };
    if source_sample_rate <= 0 || output_sample_rate <= 0 {
        return Err(AudioError::SampleRates);
    }
    let source_hop: i32 = source_sample_rate / 2;
    let source_frames = shapes::centered_frames(source[1], source_hop * 2, source_hop);
    let output_hop: i32 = output_sample_rate / 2;
    let output_frames = shapes::centered_frames(target_length, output_hop * 2, output_hop);
    let source_rows = [1i32, source_frames.frame_count];
    let source_stretch = match interpolate_linear_1d_to_length(&source_rows, target_length) {
        Ok(plan) => plan,
        Err(error) => return Err(error),
    };
    let output_rows = [1i32, output_frames.frame_count];
    let output_stretch = match interpolate_linear_1d_to_length(&output_rows, target_length) {
        Ok(plan) => plan,
        Err(error) => return Err(error),
    };
    Ok(LoudnessPlan { source_frames, output_frames, source_stretch, output_stretch, target_length })
}

/// Samples from `start` up to, not including, `end`.
#[derive(Clone, Copy, Debug, PartialEq, Eq, Structural)]
pub struct Span {
    pub start: i32,
    pub end: i32,
}

/// How the volume of waveforms is measured: in frames that follow one another
/// on the waveform with mirrored samples on both sides.
#[derive(Clone, Copy, Debug, PartialEq, Eq, Structural)]
pub struct VolumePlan {
    /// The waveforms, each of which gets a row of volumes, one for each frame.
    pub rows: i32,
    /// The samples that are put, reversed, before the waveform.
    pub before: Span,
    /// The samples that are put, reversed, after the waveform.
    pub after: Span,
    pub frames: FrameLayout,
}

/// What is done with waveforms of `length` samples.
pub open spec fn volume_plan(rows: i32, length: int, hop: int) -> VolumePlan {
    let left = hop / 2;
    let right = (hop + 1) / 2;
    VolumePlan {
        rows,
        before: Span { start: 1, end: (left + 1) as i32 },
        after: Span { start: (length - right - 1) as i32, end: (length - 1) as i32 },
        frames: FrameLayout {
            left: left as i32,
            right: right as i32,
            padded_length: (length + left + right) as i32,
            frame_count: (length / hop) as i32,
            frame_length: hop as i32,
            hop: hop as i32,
        },
    }
}

/// Whether both mirrored parts fit in a waveform of `length` samples.
pub open spec fn reflectable(length: int, hop: int) -> bool {
    hop / 2 < length && (hop + 1) / 2 < length
}

/// Measures the volume of audio.
#[derive(Clone, Copy, Debug, PartialEq, Eq, Structural)]
pub struct VolumeExtractor {
    pub hop_size: i32,
}

impl VolumeExtractor {
    pub fn new(hop_size: i32) -> (result: Result<Self, AudioError>)
        ensures
            match result {
                Ok(extractor) => hop_size > 0 && extractor.hop_size == hop_size,
                Err(error) => hop_size <= 0 && error == AudioError::HopSize,
            },
    {
        if hop_size <= 0 {
            return Err(AudioError::HopSize);
        }
        Ok(Self { hop_size })
    }

    /// Plans the measurement on an array of waveforms.
    pub fn extract(&self, shape: &[i32]) -> (result: Result<VolumePlan, AudioError>)
        requires
            self.hop_size > 0,
            shape@.len() == 2 ==> 0 <= shape@[1] && shape@[1] + self.hop_size <= i32::MAX,
        ensures
            match result {
                Err(AudioError::AudioRank) => shape@.len() != 2,
                Err(AudioError::NoVolumeFrame) => shape@.len() == 2 && shape@[1] < self.hop_size,
                Err(error) => {
                    &&& error == AudioError::TooShortToReflect
                    &&& shape@.len() == 2
                    &&& shape@[1] >= self.hop_size
                    &&& !reflectable(shape@[1] as int, self.hop_size as int)
                },
                Ok(plan) => {
                    &&& shape@.len() == 2
                    &&& shape@[1] >= self.hop_size
                    &&& reflectable(shape@[1] as int, self.hop_size as int)
                    &&& plan == volume_plan(shape@[0], shape@[1] as int, self.hop_size as int)
                    &&& plan.frames.inside()
                    &&& plan.frames.frame_count >= 1
                },
            },
    {
        if shape.len() != 2 {
            return Err(AudioError::AudioRank);
        }
        let length = shape[1];
        let frame_count: i32 = length / self.hop_size;
        proof {
            lemma_fundamental_div_mod(length as int, self.hop_size as int);
            lemma_mod_bound(length as int, self.hop_size as int);
            if length < self.hop_size {
                lemma_basic_div(length as int, self.hop_size as int);
            } else {
                lemma_div_non_zero(length as int, self.hop_size as int);
            }
        }
        if frame_count <= 0 {
            return Err(AudioError::NoVolumeFrame);
        }
        let left: i32 = self.hop_size / 2;
        let right: i32 = (self.hop_size + 1) / 2;
        if !(left < length && right < length) {
            return Err(AudioError::TooShortToReflect);
        }
        let frames = FrameLayout {
            left,
            right,
            padded_length: length + left + right,
            frame_count,
            frame_length: self.hop_size,
            hop: self.hop_size,
        };
        assert((frame_count - 1) * self.hop_size + self.hop_size == self.hop_size * frame_count)
            by (nonlinear_arith);
        Ok(
            VolumePlan {
                rows: shape[0],
                before: Span { start: 1, end: left + 1 },
                after: Span { start: length - right - 1, end: length - 1 },
                frames,
            },
        )
    }
}

/// The sample that stands at `position` of the padded waveform: before and
/// after the waveform it is mirrored, without repeating the outermost sample.
pub open spec fn mirrored(position: int, left: int, length: int) -> int {
    let offset = position - left;
    if offset < 0 {
        -offset
    } else if offset < length {
        offset
    } else {
        2 * (length - 1) - offset
    }
}

/// The sample at `position` when the two spans are reversed and put around
/// the waveform.
pub open spec fn assembled(plan: VolumePlan, position: int, length: int) -> int {
    let left = plan.before.end - plan.before.start;
    if position < left {
        plan.before.end - 1 - position
    } else if position < left + length {
        position - left
    } else {
        plan.after.end - 1 - (position - left - length)
    }
}

/// The spans that are put around a waveform mirror it, and have the lengths
/// of the paddings.
pub proof fn lemma_volume_mirrors(rows: i32, length: int, hop: int, position: int)
    requires
        0 < hop <= length,
        length + hop <= i32::MAX,
        reflectable(length, hop),
        0 <= position < volume_plan(rows, length, hop).frames.padded_length,
    ensures
        ({
            let plan = volume_plan(rows, length, hop);
            &&& plan.before.end - plan.before.start == plan.frames.left
            &&& plan.after.end - plan.after.start == plan.frames.right
            &&& plan.frames.padded_length == plan.frames.left + length + plan.frames.right
            &&& 0 <= plan.before.start <= plan.before.end <= length
            &&& 0 <= plan.after.start <= plan.after.end <= length
            &&& 0 <= assembled(plan, position, length) < length
            &&& assembled(plan, position, length) == mirrored(
                position,
                plan.frames.left as int,
                length,
            )
        }),
{
    lemma_fundamental_div_mod(length, hop);
}

/// With a hop of more than one sample, the volume is measured wherever there is
/// a frame, and there is one for each hop.
pub proof fn lemma_volume_frames(rows: i32, length: int, hop: int)
    requires
        2 <= hop <= i32::MAX,
        0 <= length <= i32::MAX,
    ensures
        length >= hop ==> reflectable(length, hop),
        volume_plan(rows, length, hop).rows == rows,
        volume_plan(rows, length, hop).frames.frame_count == length / hop,
        volume_plan(rows, length, hop).frames.frame_count >= 1 <==> length >= hop,
        volume_plan(rows, length, hop).frames.frame_length == hop,
        volume_plan(rows, length, hop).frames.hop == hop,
        ({
            let frames = volume_plan(rows, length, hop).frames;
            &&& frames.left + frames.right == hop
            &&& frames.left <= frames.right <= frames.left + 1
        }),
{
    lemma_fundamental_div_mod(length, hop);
    lemma_mod_bound(length, hop);
    assert(0 <= length / hop <= length && (length / hop >= 1 <==> length >= hop))
        by (nonlinear_arith)
        requires
            length == hop * (length / hop) + length % hop,
            0 <= length % hop < hop,
            length >= 0,
            hop >= 1,
    ;
}

/// Between equal rates nothing is done.
pub proof fn lemma_equal_rates(rate: i32, lowpass: int, length: int)
    ensures
        resampler(rate, rate, lowpass).plan(length) == Resampling::Unchanged,
        resampled_length(rate, rate, length) == length,
{
}

/// A filter reaches at most twice its nominal width in input samples.
pub proof fn lemma_reach_bounded(original: nat, target: nat, lowpass: nat)
    requires
        0 < original,
        0 < target,
        0 < lowpass,
        lowpass * original <= 0x1_0000_0000_0000,
    ensures
        0 <= reach(original, target, lowpass) <= 2 * (lowpass * original),
{
    let total = lowpass * original;
    let smaller = if original < target {
        original
    } else {
        target
    };
    lemma2_to64();
    lemma2_to64_rest();
    assert(total > 0) by (nonlinear_arith)
        requires
            total == lowpass * original,
            lowpass > 0,
            original > 0,
    ;
    // The nominal width is exact.
    let x = rounding::nearest(total, 1, 53);
    rounding::lemma_nearest_integer_error(total, 53);
    if x.exponent >= 0 {
        lemma_pow2_pos(x.exponent as nat);
        let low = pow2(52);
        let power = pow2(x.exponent as nat);
        assert(low * power >= low) by (nonlinear_arith)
            requires
                power >= 1,
        ;
    }
    let shift = (-x.exponent) as nat;
    let p = pow2(shift);
    lemma_pow2_pos(shift);
    // The cut-off is at least one half.
    let share: nat = 0x1f_ae14_7ae1_47ae;
    let raw = rounding::nearest(smaller * share, 1, 53);
    assert(smaller * share >= share) by (nonlinear_arith)
        requires
            smaller >= 1,
    ;
    assert(1 * pow2(52) == pow2(52)) by (nonlinear_arith);
    rounding::lemma_nearest_at_least(smaller * share, 1, 53, 52);
    rounding::lemma_nearest_positive(smaller * share, 1, 53);
    let base = cutoff(original, target);
    let m = base.mantissa;
    let e = base.exponent;
    assert(base.mantissa == raw.mantissa);
    assert(e == raw.exponent - 53);
    let t = e + shift;
    let limit = Scaled { mantissa: 2 * total, exponent: t };
    if e < -1 {
        let q = pow2((-1 - e) as nat);
        assert(1 * q == q) by (nonlinear_arith);
        assert(m >= q);
        if t >= 0 {
            let r = pow2(t as nat);
            lemma_pow2_adds(t as nat, (-1 - e) as nat);
            lemma_pow2_unfold(shift);
            assert(r * q == pow2((shift - 1) as nat));
            assert(x.mantissa <= (2 * total) * (m * r)) by (nonlinear_arith)
                requires
                    x.mantissa == total * p,
                    p == 2 * (r * q),
                    m >= q,
                    r >= 0,
                    total >= 0,
            ;
            if t == 0 {
                assert(m * r == m) by (nonlinear_arith)
                    requires
                        r == 1,
                ;
            }
        } else {
            let r = pow2((-t) as nat);
            lemma_pow2_adds(shift, (-t) as nat);
            lemma_pow2_unfold((-e) as nat);
            assert(p * r == 2 * q);
            assert(x.mantissa * r <= (2 * total) * m) by (nonlinear_arith)
                requires
                    x.mantissa == total * p,
                    p * r == 2 * q,
                    m >= q,
                    total >= 0,
            ;
        }
    } else {
        assert(t >= 0);
        let r = pow2(t as nat);
        lemma_pow2_pos(t as nat);
        lemma_pow2_unfold((t + 1) as nat);
        if shift < t + 1 {
            lemma_pow2_strictly_increases(shift, (t + 1) as nat);
        }
        assert(x.mantissa <= (2 * total) * (m * r)) by (nonlinear_arith)
            requires
                x.mantissa == total * p,
                p <= 2 * r,
                m >= 1,
                total >= 0,
        ;
        if t == 0 {
            assert(m * r == m) by (nonlinear_arith)
                requires
                    r == 1,
            ;
        }
    }
    assert(rounding::ratio_at_most(x.mantissa, m, limit));
    rounding::lemma_nearest_at_most(x.mantissa, m, 53, limit);
    let q = rounding::quotient(x, base, 53);
    rounding::lemma_ceiling_at_most(q, 2 * total);
}

/// The filters between rates of ordinary size have a length that an `i32`
/// holds.
pub proof fn lemma_kernel_fits(original_rate: int, target_rate: int, lowpass: int)
    requires
        0 < original_rate,
        0 < target_rate <= i32::MAX,
        0 < lowpass,
        (4 * lowpass + 1) * original_rate <= i32::MAX,
    ensures
        kernel_fits(original_rate, target_rate, lowpass),
{
    assert(original_rate <= i32::MAX && lowpass * original_rate <= i32::MAX) by (nonlinear_arith)
        requires
            0 < original_rate,
            0 < lowpass,
            (4 * lowpass + 1) * original_rate <= i32::MAX,
    ;
    lemma_reduced(original_rate, target_rate);
    let divisor = gcd(original_rate, target_rate);
    let original = original_rate / divisor;
    let target = target_rate / divisor;
    assert(original <= original_rate && lowpass * original <= lowpass * original_rate)
        by (nonlinear_arith)
        requires
            original * divisor == original_rate,
            original > 0,
            divisor > 0,
            lowpass > 0,
    ;
    lemma_reach_bounded(original as nat, target as nat, lowpass as nat);
    assert((4 * lowpass + 1) * original_rate == 4 * (lowpass * original_rate) + original_rate)
        by (nonlinear_arith);
}

/// A filter reaches `lowpass * original / (0.99 * smaller)` input samples, where
/// `smaller` is the smaller one of the two reduced rates, rounded up, but for the
/// rounding on the way.
pub proof fn lemma_reach(original: nat, target: nat, lowpass: nat, smaller: nat)
    requires
        0 < original,
        0 < target,
        0 < lowpass,
        smaller == original || smaller == target,
        smaller <= original,
        smaller <= target,
        reach(original, target, lowpass) < i32::MAX,
    ensures
        ({
            let width = reach(original, target, lowpass);
            let total = (lowpass * original) as int;
            &&& 99 * (width * smaller) * 0x4_0000_0000_0000 >= 100 * total * 0x3_ffff_ffff_ffff
            &&& 99 * ((width - 1) * smaller) * 0x3_ffff_ffff_ffff <= 100 * total
                * 0x4_0000_0000_0000
        }),
{
    let total = lowpass * original;
    lemma2_to64();
    lemma2_to64_rest();
    assert(total > 0) by (nonlinear_arith)
        requires
            total == lowpass * original,
            lowpass > 0,
            original > 0,
    ;
    let share: nat = 0x1f_ae14_7ae1_47ae;
    let scaled = smaller * share;
    assert(scaled > 0);
    let full: int = 0x20_0000_0000_0000;
    assert(pow2(53) == full);
    let rounded = rounding::nearest(scaled, 1, 53);
    rounding::lemma_near_nearest(scaled, 1, 53);
    rounding::lemma_near_shifted(rounded, scaled, 1, 1, 53, -53);
    let c = cutoff(original, target);
    assert(c == Scaled { mantissa: rounded.mantissa, exponent: rounded.exponent - 53 });
    assert(rounding::power(-53) == 1 && rounding::power(53) == full);
    assert(scaled * 1 == scaled && 1 * rounding::power(53) == full);
    assert(rounding::near(c, scaled, full as nat, 1, 53));
    let x = rounding::nearest(total, 1, 53);
    rounding::lemma_near_nearest(total, 1, 53);
    rounding::lemma_near_divided(x, total, 1, 1, c, 53);
    let up = rounding::power(c.exponent) as int;
    let down = rounding::power(-c.exponent) as int;
    lemma_power_positive(c.exponent);
    lemma_power_positive(-c.exponent);
    let over = (c.mantissa * rounding::power(c.exponent)) as int;
    let den = 1 * rounding::power(c.exponent) * c.mantissa;
    assert(den == over) by (nonlinear_arith)
        requires
            den == 1 * up * c.mantissa,
            over == c.mantissa * up,
    ;
    assert(over > 0) by (nonlinear_arith)
        requires
            over == c.mantissa * up,
            up > 0,
            c.mantissa > 0,
    ;
    let q = rounding::quotient(x, c, 53);
    rounding::lemma_near_ceiling(q, total * rounding::power(-c.exponent), den, 3, 53);
    let width = reach(original, target, lowpass);
    assert(width == rounding::ceiling(q));
    let t = total as int;
    let s = scaled as int;
    assert(over * full * full <= s * down * (full + 1) && over * full * full >= s * down * (full
        - 1)) by (nonlinear_arith)
        requires
            (over * full - s * down) * full <= 1 * (s * down),
            (s * down - over * full) * full <= 1 * (s * down),
    ;
    let td = t * down;
    let sd = s * down;
    assert(width * over * full >= td * (full - 3));
    assert((width - 1) * over * full < td * (full + 3));
    // Both sides are divided by the power of two of the cut-off.
    assert(width * s * (full + 1) >= t * full * (full - 3)) by {
        let a = over * full;
        assert(width * (a * full) >= td * (full - 3) * full) by (nonlinear_arith)
            requires
                width * over * full >= td * (full - 3),
                a == over * full,
                full > 0,
        ;
        assert(width * (a * full) <= width * (sd * (full + 1))) by (nonlinear_arith)
            requires
                a * full <= sd * (full + 1),
                width >= 0,
        ;
        assert(width * (sd * (full + 1)) == width * s * (full + 1) * down && td * (full - 3) * full
            == t * full * (full - 3) * down) by (nonlinear_arith)
            requires
                sd == s * down,
                td == t * down,
        ;
        assert(width * s * (full + 1) >= t * full * (full - 3)) by (nonlinear_arith)
            requires
                width * s * (full + 1) * down >= t * full * (full - 3) * down,
                down > 0,
        ;
    }
    assert((width - 1) * s * (full - 1) <= t * full * (full + 3)) by {
        if width >= 1 {
            let a = over * full;
            let w = width - 1;
            assert(w * (a * full) <= td * (full + 3) * full) by (nonlinear_arith)
                requires
                    w * over * full < td * (full + 3),
                    a == over * full,
                    full > 0,
            ;
            assert(w * (a * full) >= w * (sd * (full - 1))) by (nonlinear_arith)
                requires
                    a * full >= sd * (full - 1),
                    w >= 0,
            ;
            assert(w * (sd * (full - 1)) == w * s * (full - 1) * down && td * (full + 3) * full
                == t * full * (full + 3) * down) by (nonlinear_arith)
                requires
                    sd == s * down,
                    td == t * down,
            ;
            assert(w * s * (full - 1) <= t * full * (full + 3)) by (nonlinear_arith)
                requires
                    w * s * (full - 1) * down <= t * full * (full + 3) * down,
                    down > 0,
            ;
        } else {
            assert((width - 1) * s * (full - 1) <= 0) by (nonlinear_arith)
                requires
                    width < 1,
                    s > 0,
                    full > 1,
            ;
            assert(t * full * (full + 3) >= 0) by (nonlinear_arith)
                requires
                    t > 0,
                    full > 0,
            ;
        }
    }
    let product = width * smaller;
    let shorter = (width - 1) * smaller;
    assert(width * s == product * share && (width - 1) * s == shorter * share) by (nonlinear_arith)
        requires
            s == smaller * share,
            product == width * smaller,
            shorter == (width - 1) * smaller,
    ;
    assert(product * 0x1f_ae14_7ae1_47ae * 0x20_0000_0000_0001 >= t * 0x20_0000_0000_0000
        * 0x1f_ffff_ffff_fffd);
    assert(shorter * 0x1f_ae14_7ae1_47ae * 0x1f_ffff_ffff_ffff <= t * 0x20_0000_0000_0000
        * 0x20_0000_0000_0003);
}

proof fn lemma_power_positive(exponent: int)
    ensures
        rounding::power(exponent) > 0,
{
    if exponent > 0 {
        lemma_pow2_pos(exponent as nat);
    }
}

} // verus!
