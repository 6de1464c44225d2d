use vstd::prelude::*;

use crate::model::{dft_output, lemma_plan_is_dft, run, samples};
use crate::pow2::{is_pow2, is_power_of_two, lemma_pow2_order};

verus! {

/// One butterfly of the radix-2 transform over two equal-length buffers, the
/// working buffer and the scratch buffer.
///
/// It reads `even` and `odd` from one buffer and writes the other one:
/// `low := even + w * odd` and `high := even - w * odd`, where
/// `w = exp(-2 pi i * twiddle / n)` for the transform length `n`.
/// With `into_scratch` it reads the working buffer and writes the scratch
/// buffer; otherwise the other way round.
#[derive(Clone, Copy, Debug, PartialEq, Eq, Structural)]
pub struct Butterfly {
    pub even: usize,
    pub odd: usize,
    pub low: usize,
    pub high: usize,
    pub twiddle: usize,
    pub into_scratch: bool,
}

impl Butterfly {
    /// Every index of the butterfly addresses a buffer of length `n`, and the
    /// twiddle exponent is below `n`.
    pub open spec fn within(self, n: int) -> bool {
        &&& self.even < n
        &&& self.odd < n
        &&& self.low < n
        &&& self.high < n
        &&& self.twiddle < n
    }
}

/// The butterflies that combine the two half transforms of the subsequence
/// `offset, offset + step, offset + 2 * step, ...` of a length-`n` buffer,
/// one for each `k < n / (2 * step)`.
pub open spec fn level_spec(n: nat, offset: nat, step: nat, into_scratch: bool) -> Seq<Butterfly> {
    Seq::new(
        n / (2 * step),
        |k: int|
            Butterfly {
                even: (offset + 2 * (k * step)) as usize,
                odd: (offset + 2 * (k * step) + step) as usize,
                low: (offset + k * step) as usize,
                high: (offset + k * step + n / 2) as usize,
                twiddle: (k * step) as usize,
                into_scratch,
            },
    )
}

/// The butterflies that transform the subsequence `offset, offset + step, ...`
/// of a length-`n` buffer, in the order in which they run: first the even
/// half, then the odd half (both writing the other buffer), then this level.
pub open spec fn plan_spec(n: nat, offset: nat, step: nat, into_scratch: bool) -> Seq<Butterfly>
    decreases if step < n {
        n - step
    } else {
        0
    },
{
    if step == 0 || step >= n {
        Seq::empty()
    } else {
        plan_spec(n, offset, 2 * step, !into_scratch) + plan_spec(
            n,
            offset + step,
            2 * step,
            !into_scratch,
        ) + level_spec(n, offset, step, into_scratch)
    }
}

/// Appends to `out` the butterflies of `plan_spec(n, offset, step, into_scratch)`.
fn emit(n: usize, offset: usize, step: usize, into_scratch: bool, out: &mut Vec<Butterfly>)
    requires
        is_pow2(n as int),
        is_pow2(step as int),
        step <= n,
        offset < step,
        forall|i: int| 0 <= i < old(out)@.len() ==> (#[trigger] old(out)@[i]).within(n as int),
    ensures
        final(out)@ == old(out)@ + plan_spec(n as nat, offset as nat, step as nat, into_scratch),
        forall|i: int| 0 <= i < final(out)@.len() ==> (#[trigger] final(out)@[i]).within(n as int),
    decreases n - step,
{
    if step >= n {
        assert(old(out)@ + plan_spec(n as nat, offset as nat, step as nat, into_scratch) =~= old(
            out,
        )@);
        return;
    }
    proof {
        lemma_pow2_order(step as int, n as int);
    }
    let ghost start = out@;
    emit(n, offset, step * 2, !into_scratch, out);
    emit(n, offset + step, step * 2, !into_scratch, out);
    let ghost mid = out@;
    let ghost count: int = (n as int) / (2 * (step as int));
    let ghost level = level_spec(n as nat, offset as nat, step as nat, into_scratch);
    proof {
        vstd::arithmetic::div_mod::lemma_fundamental_div_mod(n as int, 2 * step);
        assert(n == count * (2 * step));
        assert(n / 2 == count * step) by (nonlinear_arith)
            requires n == count * (2 * step);
    }
    let half = n / 2;
    let mut k: usize = 0;
    let mut j: usize = 0;
    while j < half
        invariant
            is_pow2(n as int),
            offset < step,
            step < n,
            half == n / 2,
            half == count * step,
            n == count * (2 * step),
            j == k * step,
            k <= count,
            level == level_spec(n as nat, offset as nat, step as nat, into_scratch),
            level.len() == count,
            out@ == mid + level.take(k as int),
            forall|i: int| 0 <= i < out@.len() ==> (#[trigger] out@[i]).within(n as int),
        decreases count - k,
    {
        proof {
            assert(k < count) by (nonlinear_arith)
                requires j == k * step, j < count * step, step > 0;
            assert(j + step <= count * step) by (nonlinear_arith)
                requires k + 1 <= count, step > 0, j == k * step;
            assert(j + step <= half);
        }
        let b = Butterfly {
            even: offset + 2 * j,
            odd: offset + 2 * j + step,
            low: offset + j,
            high: offset + j + half,
            twiddle: j,
            into_scratch,
        };
        assert(b == level[k as int]);
        out.push(b);
        assert(out@ =~= mid + level.take(k + 1));
        j = j + step;
        k = k + 1;
        assert(j == k * step) by (nonlinear_arith)
            requires j == (k - 1) * step + step;
    }
    proof {
        assert(k == count) by (nonlinear_arith)
            requires j == k * step, j >= count * step, k <= count, step > 0;
        assert(level.take(k as int) =~= level);
        assert(out@ =~= start + plan_spec(n as nat, offset as nat, step as nat, into_scratch));
    }
}

/// The butterflies of the transform of a buffer of length `n`, in the order in
/// which they run, both buffers starting out as copies of the input. Run
/// exactly, they leave output `k` of the discrete Fourier transform at
/// position `k` of the working buffer.
pub fn transform_plan(n: usize) -> (r: Vec<Butterfly>)
    requires
        is_pow2(n as int),
    ensures
        r@ == plan_spec(n as nat, 0, 1, false),
        forall|i: int| 0 <= i < r@.len() ==> (#[trigger] r@[i]).within(n as int),
        run(r@, n as int, (samples(n as int), samples(n as int))).0.len() == n,
        forall|k: int|
            0 <= k < n ==> #[trigger] run(r@, n as int, (samples(n as int), samples(n as int))).0[k]
                == dft_output(n as int, k),
{
    let mut r: Vec<Butterfly> = Vec::new();
    emit(n, 0, 1, false, &mut r);
    assert(r@ =~= plan_spec(n as nat, 0, 1, false));
    proof {
        lemma_plan_is_dft(n as int);
    }
    r
}

} // verus!

verus! {

/// Why a transform cannot run on the buffers it was given.
#[derive(Clone, Copy, Debug, PartialEq, Eq, Structural)]
pub enum TransformError {
    /// The working and scratch buffers differ in length, or their length is
    /// not a power of two.
    InvalidBufferLength,
}

/// The plan of `transform_plan` for a working buffer and a scratch buffer of
/// the given lengths; an error, and no plan, unless both lengths are the same
/// power of two.
pub fn checked_transform_plan(work_len: usize, scratch_len: usize) -> (r: Result<
    Vec<Butterfly>,
    TransformError,
>)
    ensures
        r is Ok <==> (work_len == scratch_len && is_pow2(work_len as int)),
        r matches Ok(p) ==> p@ == plan_spec(work_len as nat, 0, 1, false),
        r matches Err(e) ==> e == TransformError::InvalidBufferLength,
{
    if work_len != scratch_len || !is_power_of_two(work_len) {
        return Err(TransformError::InvalidBufferLength);
    }
    Ok(transform_plan(work_len))
}

} // verus!
