/// Preparing a captured frame for the transform: the stream's parameters and
/// zero-padding to a power-of-two length.
pub mod frame;
/// The exact meaning of a butterfly plan, and the proof that the plan of
/// `plan::transform_plan` computes the discrete Fourier transform.
pub mod model;
/// The radix-2 decimation-in-time transform as a sequence of butterflies over
/// a working buffer and a scratch buffer.
pub mod plan;
/// Powers of two.
pub mod pow2;
