use vstd::prelude::*;

use crate::pow2::{is_next_pow2, is_pow2, max_padded_input, next_power_of_two};

verus! {

/// The capture parameters, fixed for the lifetime of a stream.
#[derive(Clone, Copy, Debug, PartialEq, Eq, Structural)]
pub struct StreamConfig {
    /// Samples per second on each channel.
    pub sample_rate: u32,
    /// Samples per channel in one frame.
    pub frame_size: usize,
    /// Interleaved channels.
    pub channels: usize,
}

impl StreamConfig {
    /// The number of samples in one frame, `frame_size * channels`, or `None`
    /// where it does not fit in a `usize`.
    pub fn samples_per_frame(&self) -> (r: Option<usize>)
        ensures
            r matches Some(v) ==> v == self.frame_size * self.channels,
            r is None <==> self.frame_size * self.channels > usize::MAX,
    {
        if self.channels == 0 {
            return Some(0);
        }
        if self.frame_size > usize::MAX / self.channels {
            proof {
                let (f, c) = (self.frame_size as int, self.channels as int);
                assert(f * c > usize::MAX) by (nonlinear_arith)
                    requires f > usize::MAX as int / c, c > 0;
            }
            return None;
        }
        proof {
            let (f, c) = (self.frame_size as int, self.channels as int);
            assert(f * c <= usize::MAX) by (nonlinear_arith)
                requires f <= usize::MAX as int / c, c > 0;
        }
        Some(self.frame_size * self.channels)
    }

    /// Whether a block of `len` samples is one whole frame.
    pub fn is_whole_frame(&self, len: usize) -> (r: bool)
        ensures
            r == (len == self.frame_size * self.channels),
    {
        match self.samples_per_frame() {
            Some(v) => len == v,
            None => false,
        }
    }
}

/// Length of the transform buffer for a frame of `n` samples.
pub fn padded_len(n: usize) -> (r: usize)
    requires
        n <= max_padded_input(),
    ensures
        is_next_pow2(n as int, r as int),
        is_pow2(n as int) ==> r == n,
{
    next_power_of_two(n)
}

/// Copies `frame` in order and appends `zero` until the length is the smallest
/// power of two that is at least the frame's length.
pub fn zero_pad<T: Copy>(frame: &Vec<T>, zero: T) -> (r: Vec<T>)
    requires
        frame@.len() <= max_padded_input(),
    ensures
        is_next_pow2(frame@.len() as int, r@.len() as int),
        forall|i: int| 0 <= i < frame@.len() ==> r@[i] == frame@[i],
        forall|i: int| frame@.len() <= i < r@.len() ==> r@[i] == zero,
{
    let n = padded_len(frame.len());
    let mut r: Vec<T> = Vec::with_capacity(n);
    let mut i: usize = 0;
    while i < n
        invariant
            frame@.len() <= n,
            i <= n,
            r@.len() == i,
            forall|j: int| 0 <= j < i && j < frame@.len() ==> r@[j] == frame@[j],
            forall|j: int| frame@.len() <= j < i ==> r@[j] == zero,
        decreases n - i,
    {
        if i < frame.len() {
            r.push(frame[i]);
        } else {
            r.push(zero);
        }
        i = i + 1;
    }
    r
}

} // verus!
