//! Planning core of a singing-voice conversion pipeline.

pub mod attention;
pub mod audio;
pub mod contentvec;
pub mod f0_decoder;
pub mod flow;
pub mod gan;
pub mod gan_generator;
pub mod inference;
pub mod lengths;
pub mod names;
pub mod pitch;
pub mod refine;
pub mod rounding;
pub mod shapes;
pub mod single;
pub mod slicer;
pub mod upsampler;
pub mod vocoder;
pub mod weights;
