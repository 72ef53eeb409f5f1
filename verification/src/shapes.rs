//! Shapes of arrays and layouts of overlapping frames.

use vstd::arithmetic::div_mod::*;
use vstd::prelude::*;

verus! {

/// What the values of an array are.
#[derive(Clone, Copy, Debug, PartialEq, Eq, Structural)]
pub enum DataType {
    Bool,
    Uint8,
    Uint16,
    Uint32,
    Uint64,
    Int8,
    Int16,
    Int32,
    Int64,
    Float16,
    Float32,
    Float64,
    Bfloat16,
    Complex64,
}

impl DataType {
    pub open spec fn text(self) -> Seq<char> {
        match self {
            DataType::Bool => "Bool"@,
            DataType::Uint8 => "Uint8"@,
            DataType::Uint16 => "Uint16"@,
            DataType::Uint32 => "Uint32"@,
            DataType::Uint64 => "Uint64"@,
            DataType::Int8 => "Int8"@,
            DataType::Int16 => "Int16"@,
            DataType::Int32 => "Int32"@,
            DataType::Int64 => "Int64"@,
            DataType::Float16 => "Float16"@,
            DataType::Float32 => "Float32"@,
            DataType::Float64 => "Float64"@,
            DataType::Bfloat16 => "Bfloat16"@,
            DataType::Complex64 => "Complex64"@,
        }
    }

    /// The name for the user.
    pub fn name(&self) -> (result: &'static str)
        ensures
            result@ == self.text(),
    {
        match self {
            DataType::Bool => "Bool",
            DataType::Uint8 => "Uint8",
            DataType::Uint16 => "Uint16",
            DataType::Uint32 => "Uint32",
            DataType::Uint64 => "Uint64",
            DataType::Int8 => "Int8",
            DataType::Int16 => "Int16",
            DataType::Int32 => "Int32",
            DataType::Int64 => "Int64",
            DataType::Float16 => "Float16",
            DataType::Float32 => "Float32",
            DataType::Float64 => "Float64",
            DataType::Bfloat16 => "Bfloat16",
            DataType::Complex64 => "Complex64",
        }
    }
}

/// Overlapping frames over a padded signal: frame `i` covers the samples from
/// `i * hop` up to `i * hop + frame_length` of the padded signal.
#[derive(Clone, Copy, Debug, PartialEq, Eq, Structural)]
pub struct FrameLayout {
    /// Samples added before the signal.
    pub left: i32,
    /// Samples added after the signal.
    pub right: i32,
    /// Samples of the padded signal.
    pub padded_length: i32,
    pub frame_count: i32,
    pub frame_length: i32,
    pub hop: i32,
}

impl FrameLayout {
    /// Whether every frame lies inside the padded signal.
    pub open spec fn inside(self) -> bool {
        &&& self.hop > 0
        &&& self.frame_length >= 0
        &&& self.frame_count >= 0
        &&& self.frame_count > 0 ==> (self.frame_count - 1) * self.hop + self.frame_length
            <= self.padded_length
    }

    /// How far the frames advance in one row, one frame and one sample.
    pub fn strides(&self) -> (result: [i64; 3])
        ensures
            result@ == seq![self.padded_length as i64, self.hop as i64, 1i64],
    {
        [self.padded_length as i64, self.hop as i64, 1]
    }
}

/// The number of whole frames that fit when they start every `hop` samples.
pub open spec fn frames_in(padded_length: int, frame_length: int, hop: int) -> int {
    (padded_length - frame_length) / hop + 1
}

/// The last of [`frames_in`] frames ends inside the signal, and one more
/// would not.
pub proof fn lemma_frames_fit(padded_length: int, frame_length: int, hop: int)
    requires
        0 <= frame_length <= padded_length,
        hop > 0,
    ensures
        frames_in(padded_length, frame_length, hop) >= 1,
        (frames_in(padded_length, frame_length, hop) - 1) * hop + frame_length <= padded_length,
        padded_length < frames_in(padded_length, frame_length, hop) * hop + frame_length,
        frames_in(padded_length, frame_length, hop) <= padded_length - frame_length + 1,
{
    let room = padded_length - frame_length;
    let quotient = room / hop;
    lemma_fundamental_div_mod(room, hop);
    lemma_mod_bound(room, hop);
    lemma_div_pos_is_pos(room, hop);
    assert(quotient * hop == hop * quotient) by (nonlinear_arith);
    assert((quotient + 1) * hop == hop * quotient + hop) by (nonlinear_arith);
    assert(quotient <= hop * quotient) by (nonlinear_arith)
        requires
            hop >= 1,
            quotient >= 0,
    ;
}

/// The layout of frames that are centred on multiples of `hop`: the signal is
/// padded by half a frame on both sides.
pub open spec fn centered(sample_count: int, frame_length: int, hop: int) -> FrameLayout {
    let padding = frame_length / 2;
    FrameLayout {
        left: padding as i32,
        right: padding as i32,
        padded_length: (sample_count + 2 * padding) as i32,
        frame_count: frames_in(sample_count + 2 * padding, frame_length, hop) as i32,
        frame_length: frame_length as i32,
        hop: hop as i32,
    }
}

/// Frames of an even length are centred on multiples of `hop`: each reaches as far
/// to the left of such a sample as to its right, and there is one for every
/// multiple up to the end of the signal.
pub proof fn lemma_centered(sample_count: int, frame_length: int, hop: int)
    requires
        0 <= sample_count,
        0 <= frame_length,
        frame_length % 2 == 0,
        hop > 0,
        sample_count + frame_length < i32::MAX,
        hop <= i32::MAX,
    ensures
        ({
            let layout = centered(sample_count, frame_length, hop);
            &&& layout.frame_length == frame_length
            &&& layout.hop == hop
            &&& layout.left == layout.right
            &&& layout.left + layout.right == frame_length
            &&& layout.padded_length == sample_count + frame_length
            &&& layout.frame_count >= 1
            &&& (layout.frame_count - 1) * hop <= sample_count < layout.frame_count * hop
        }),
{
    lemma_frames_fit(sample_count + frame_length, frame_length, hop);
}

/// Lays out frames centred on multiples of `hop`.
pub fn centered_frames(sample_count: i32, frame_length: i32, hop: i32) -> (layout: FrameLayout)
    requires
        frame_length >= 0,
        hop > 0,
        sample_count >= frame_length % 2,
        sample_count + frame_length < i32::MAX,
    ensures
        layout == centered(sample_count as int, frame_length as int, hop as int),
        layout.left == layout.right == frame_length as int / 2,
        layout.padded_length == sample_count + 2 * (frame_length as int / 2),
        layout.frame_count == frames_in(
            layout.padded_length as int,
            frame_length as int,
            hop as int,
        ),
        layout.frame_count >= 1,
        layout.frame_length == frame_length,
        layout.hop == hop,
        layout.inside(),
{
    let padding: i32 = frame_length / 2;
    let padded_length: i32 = sample_count + 2 * padding;
    proof {
        lemma_frames_fit(padded_length as int, frame_length as int, hop as int);
    }
    let frame_count: i32 = (padded_length - frame_length) / hop + 1;
    FrameLayout { left: padding, right: padding, padded_length, frame_count, frame_length, hop }
}

/// Whether a shape is `[1, n]`.
pub open spec fn is_single_row(shape: Seq<i32>) -> bool {
    shape.len() == 2 && shape[0] == 1
}

/// Whether a shape is `[1, n]`.
pub fn single_row(shape: &[i32]) -> (result: bool)
    ensures
        result == is_single_row(shape@),
{
    shape.len() == 2 && shape[0] == 1
}

/// The length of a convolution's output.
pub open spec fn convolved(
    length: int,
    kernel_size: int,
    padding: int,
    dilation: int,
    stride: int,
) -> int {
    frames_in(length + 2 * padding, dilation * (kernel_size - 1) + 1, stride)
}

/// The length of a transposed convolution's output.
pub open spec fn transposed(length: int, kernel_size: int, padding: int, stride: int) -> int {
    (length - 1) * stride - 2 * padding + kernel_size
}

} // verus!
