use vstd::prelude::*;

use crate::plan::{level_spec, plan_spec, Butterfly};
use crate::pow2::{is_pow2, lemma_pow2_order};

verus! {

/// An exact value of the transform, written as a weighted sum of the input
/// samples: position `p` of the input contributes `x[p] * w^e` where
/// `e == weights[p]` and `w = exp(-2 pi i / n)`. Positions outside the domain
/// do not contribute.
pub type Weights = Map<int, int>;

/// The working and the scratch buffer, as exact values.
pub type Buffers = (Seq<Weights>, Seq<Weights>);

/// The input sample at position `p`, unweighted.
pub open spec fn sample(p: int) -> Weights {
    Map::empty().insert(p, 0)
}

/// `even + w^e * odd`, for values over disjoint sets of input positions.
pub open spec fn combine(even: Weights, odd: Weights, e: int, n: int) -> Weights {
    Map::new(
        |p: int| even.dom().contains(p) || odd.dom().contains(p),
        |p: int|
            if even.dom().contains(p) {
                even[p]
            } else {
                (odd[p] + e) % n
            },
    )
}

/// The effect of one butterfly on the two buffers, for transform length `n`.
/// `even - w^t * odd` is `even + w^(t + n / 2) * odd`.
pub open spec fn apply(b: Butterfly, n: int, st: Buffers) -> Buffers {
    let src = if b.into_scratch {
        st.0
    } else {
        st.1
    };
    let dst = if b.into_scratch {
        st.1
    } else {
        st.0
    };
    let e = src[b.even as int];
    let o = src[b.odd as int];
    let dst2 = dst.update(b.low as int, combine(e, o, b.twiddle as int, n)).update(
        b.high as int,
        combine(e, o, b.twiddle + n / 2, n),
    );
    if b.into_scratch {
        (st.0, dst2)
    } else {
        (dst2, st.1)
    }
}

/// The effect of running the butterflies of `plan` in order.
pub open spec fn run(plan: Seq<Butterfly>, n: int, st: Buffers) -> Buffers
    decreases plan.len(),
{
    if plan.len() == 0 {
        st
    } else {
        apply(plan.last(), n, run(plan.drop_last(), n, st))
    }
}

/// Output `k` of the transform of the subsequence of input positions `p < n`
/// with `p % step == offset`: the sample at `offset + j * step` is weighted by
/// `w^(j * step * k)`. With `offset == 0` and `step == 1` this is the discrete
/// Fourier transform `X[k] = sum of x[p] * w^(p * k)`.
pub open spec fn dft_weights(n: int, offset: int, step: int, k: int) -> Weights {
    Map::new(|p: int| 0 <= p < n && p % step == offset, |p: int| ((p - offset) * k) % n)
}

/// The buffer that a butterfly with this direction reads.
pub open spec fn source(into_scratch: bool, st: Buffers) -> Seq<Weights> {
    if into_scratch {
        st.0
    } else {
        st.1
    }
}

/// The buffer that a butterfly with this direction writes.
pub open spec fn dest(into_scratch: bool, st: Buffers) -> Seq<Weights> {
    if into_scratch {
        st.1
    } else {
        st.0
    }
}

/// The buffers after the first `m` butterflies of the level at `(o, s)`.
pub open spec fn level_run(n: int, o: int, s: int, f: bool, st: Buffers, m: int) -> Buffers {
    run(level_spec(n as nat, o as nat, s as nat, f).take(m), n, st)
}

/// `even + w^(k * s) * odd` for output `k` of the level at `(o, s)`.
pub open spec fn low_out(src: Seq<Weights>, n: int, o: int, s: int, k: int) -> Weights {
    combine(src[o + 2 * (k * s)], src[o + 2 * (k * s) + s], k * s, n)
}

/// `even - w^(k * s) * odd` for output `k` of the level at `(o, s)`.
pub open spec fn high_out(src: Seq<Weights>, n: int, o: int, s: int, k: int) -> Weights {
    combine(src[o + 2 * (k * s)], src[o + 2 * (k * s) + s], k * s + n / 2, n)
}

/// Position `k` of the subsequence at `(o, s)` is `o + k * s`.
proof fn lemma_mod_shift(o: int, k: int, s: int)
    requires
        0 <= o < s,
    ensures
        (o + k * s) % s == o,
        (o + k * s) / s == k,
{
    vstd::arithmetic::div_mod::lemma_fundamental_div_mod_converse(o + k * s, s, k, o);
}

/// The first `m` butterflies of a level leave its source alone, write the
/// outputs `k < m` into its destination, and touch no position of another
/// subsequence.
#[verifier::spinoff_prover]
proof fn lemma_level(n: int, o: int, s: int, f: bool, st: Buffers, m: int)
    requires
        0 <= o < s,
        2 * s <= n,
        n % (2 * s) == 0,
        n <= usize::MAX,
        st.0.len() == n,
        st.1.len() == n,
        0 <= m <= n / (2 * s),
    ensures
        source(f, level_run(n, o, s, f, st, m)) == source(f, st),
        dest(f, level_run(n, o, s, f, st, m)).len() == n,
        forall|p: int|
            0 <= p < n && p % s != o ==> #[trigger] dest(f, level_run(n, o, s, f, st, m))[p] == dest(
                f,
                st,
            )[p],
        forall|k: int|
            0 <= k < m ==> dest(f, level_run(n, o, s, f, st, m))[o + k * s] == #[trigger] low_out(
                source(f, st),
                n,
                o,
                s,
                k,
            ),
        forall|k: int|
            0 <= k < m ==> dest(f, level_run(n, o, s, f, st, m))[o + k * s + n / 2]
                == #[trigger] high_out(source(f, st), n, o, s, k),
    decreases m,
{
    let level = level_spec(n as nat, o as nat, s as nat, f);
    let count = n / (2 * s);
    vstd::arithmetic::div_mod::lemma_fundamental_div_mod(n, 2 * s);
    assert(n == 2 * (count * s)) by (nonlinear_arith)
        requires n == (2 * s) * count + 0;
    if m == 0 {
        assert(level.take(m) =~= Seq::<Butterfly>::empty());
        assert(run(level.take(m), n, st) == st);
    } else {
        let k0 = m - 1;
        lemma_level(n, o, s, f, st, k0);
        assert(level.take(m).drop_last() =~= level.take(k0));
        let prev = run(level.take(k0), n, st);
        let b = level[k0];
        assert(k0 * s < count * s) by (nonlinear_arith)
            requires k0 < count, s > 0;
        assert(k0 * s >= 0) by (nonlinear_arith)
            requires k0 >= 0, s > 0;
        assert(k0 * s + s <= count * s) by (nonlinear_arith)
            requires k0 + 1 <= count, s > 0;
        assert(b.even as int == o + 2 * (k0 * s));
        assert(b.odd as int == o + 2 * (k0 * s) + s);
        assert(b.low as int == o + k0 * s);
        assert(b.high as int == o + k0 * s + n / 2);
        assert(b.twiddle as int == k0 * s);
        let r = run(level.take(m), n, st);
        assert(r == apply(b, n, prev));
        lemma_mod_shift(o, k0, s);
        lemma_mod_shift(o, k0 + count, s);
        assert(o + (k0 + count) * s == o + k0 * s + n / 2) by (nonlinear_arith)
            requires n / 2 == count * s;
        let src = source(f, st);
        assert(b.into_scratch == f);
        assert(source(f, prev) == src);
        let lo = combine(src[b.even as int], src[b.odd as int], b.twiddle as int, n);
        let hi = combine(src[b.even as int], src[b.odd as int], b.twiddle + n / 2, n);
        assert(lo == low_out(src, n, o, s, k0));
        assert(hi == high_out(src, n, o, s, k0));
        assert(source(f, r) == src);
        assert(dest(f, r) == dest(f, prev).update(b.low as int, lo).update(b.high as int, hi));
        assert(o + k0 * s != o + k0 * s + n / 2);
        assert(dest(f, r).len() == n);
        assert(r == level_run(n, o, s, f, st, m));
        assert(prev == level_run(n, o, s, f, st, k0));
        assert forall|p: int| 0 <= p < n && p % s != o implies dest(f, r)[p] == dest(f, st)[p] by {
            assert(dest(f, prev)[p] == dest(f, st)[p]);
        }
        assert forall|k: int| 0 <= k < m implies dest(f, r)[o + k * s] == #[trigger] low_out(
            src,
            n,
            o,
            s,
            k,
        ) by {
            if k < k0 {
                assert(k * s + s <= k0 * s) by (nonlinear_arith)
                    requires k < k0, s > 0;
                assert(k * s >= 0) by (nonlinear_arith)
                    requires k >= 0, s > 0;
                assert(dest(f, prev)[o + k * s] == low_out(src, n, o, s, k));
            }
        }
        assert forall|k: int| 0 <= k < m implies dest(f, r)[o + k * s + n / 2] == #[trigger] high_out(
            src,
            n,
            o,
            s,
            k,
        ) by {
            if k < k0 {
                assert(k * s + s <= k0 * s) by (nonlinear_arith)
                    requires k < k0, s > 0;
                assert(k * s >= 0) by (nonlinear_arith)
                    requires k >= 0, s > 0;
                assert(dest(f, prev)[o + k * s + n / 2] == high_out(src, n, o, s, k));
            }
        }
    }
}

/// A position of the subsequence at `(o, s)` lies in exactly one of its even
/// half `(o, 2 * s)` and its odd half `(o + s, 2 * s)`.
proof fn lemma_split_residue(p: int, o: int, s: int)
    requires
        0 <= o < s,
    ensures
        p % s == o <==> (p % (2 * s) == o || p % (2 * s) == o + s),
{
    vstd::arithmetic::div_mod::lemma_mod_mod(p, s, 2);
    assert(s * 2 == 2 * s);
    let r = p % (2 * s);
    if r < s {
        vstd::arithmetic::div_mod::lemma_small_mod(r as nat, s as nat);
    } else {
        vstd::arithmetic::div_mod::lemma_fundamental_div_mod_converse(r, s, 1, r - s);
    }
}

/// The two butterfly outputs of a level are the outputs `k` and
/// `k + n / (2 * s)` of the transform of the subsequence at `(o, s)`, given the
/// outputs `k` of its two halves.
proof fn lemma_combine_halves(n: int, o: int, s: int, k: int)
    requires
        0 <= o < s,
        2 * s <= n,
        n % (2 * s) == 0,
        0 <= k,
    ensures
        combine(dft_weights(n, o, 2 * s, k), dft_weights(n, o + s, 2 * s, k), k * s, n)
            == dft_weights(n, o, s, k),
        combine(dft_weights(n, o, 2 * s, k), dft_weights(n, o + s, 2 * s, k), k * s + n / 2, n)
            == dft_weights(n, o, s, k + n / (2 * s)),
{
    let count = n / (2 * s);
    vstd::arithmetic::div_mod::lemma_fundamental_div_mod(n, 2 * s);
    assert(n == 2 * (s * count)) by (nonlinear_arith)
        requires n == (2 * s) * count + 0;
    let e = dft_weights(n, o, 2 * s, k);
    let od = dft_weights(n, o + s, 2 * s, k);
    let lo = combine(e, od, k * s, n);
    let hi = combine(e, od, k * s + n / 2, n);
    let want_lo = dft_weights(n, o, s, k);
    let want_hi = dft_weights(n, o, s, k + count);
    assert forall|p: int| #[trigger] lo.dom().contains(p) == want_lo.dom().contains(p) by {
        lemma_split_residue(p, o, s);
    }
    assert forall|p: int| #[trigger] hi.dom().contains(p) == want_hi.dom().contains(p) by {
        lemma_split_residue(p, o, s);
    }
    assert forall|p: int| #[trigger] want_lo.dom().contains(p) implies lo[p] == want_lo[p]
        && hi[p] == want_hi[p] by {
        lemma_split_residue(p, o, s);
        let j = p / (2 * s);
        vstd::arithmetic::div_mod::lemma_fundamental_div_mod(p, 2 * s);
        if p % (2 * s) == o {
            assert((p - o) * (k + count) == n * j + (p - o) * k) by (nonlinear_arith)
                requires p - o == (2 * s) * j, n == 2 * (s * count);
            vstd::arithmetic::div_mod::lemma_mod_multiples_vanish(j, (p - o) * k, n);
        } else {
            let x = (p - o - s) * k;
            assert(x + k * s == (p - o) * k) by (nonlinear_arith)
                requires x == (p - o - s) * k;
            vstd::arithmetic::div_mod::lemma_add_mod_noop_right(k * s, x, n);
            assert(lo[p] == (x % n + k * s) % n);
            assert(x % n + k * s == k * s + x % n);
            vstd::arithmetic::div_mod::lemma_add_mod_noop_right(k * s + n / 2, x, n);
            assert(hi[p] == (x % n + (k * s + n / 2)) % n);
            assert(x % n + (k * s + n / 2) == (k * s + n / 2) + x % n);
            assert((p - o) * (k + count) == n * j + ((p - o) * k + n / 2)) by (nonlinear_arith)
                requires p - o == (2 * s) * j + s, n == 2 * (s * count), n / 2 == s * count;
            vstd::arithmetic::div_mod::lemma_mod_multiples_vanish(j, (p - o) * k + n / 2, n);
        }
    }
    assert(lo =~= want_lo);
    assert(hi =~= want_hi);
}

/// The buffers after the butterflies that transform the subsequence at
/// `(o, s)`.
pub open spec fn plan_run(n: int, o: int, s: int, f: bool, st: Buffers) -> Buffers {
    run(plan_spec(n as nat, o as nat, s as nat, f), n, st)
}

/// Every position of the subsequence at `(o, s)` holds its own input sample
/// in both buffers.
pub open spec fn holds_samples(n: int, o: int, s: int, st: Buffers) -> bool {
    forall|p: int|
        #![trigger st.0[p]]
        #![trigger st.1[p]]
        0 <= p < n && p % s == o ==> st.0[p] == sample(p) && st.1[p] == sample(p)
}

/// Running the butterflies for the subsequence at `(o, s)` leaves its
/// transform in the destination buffer, output `k` at position `o + k * s`,
/// and touches no position of another subsequence.
#[verifier::spinoff_prover]
#[verifier::rlimit(60)]
proof fn lemma_plan(n: int, o: int, s: int, f: bool, st: Buffers)
    requires
        is_pow2(n),
        is_pow2(s),
        s <= n,
        0 <= o < s,
        n <= usize::MAX,
        st.0.len() == n,
        st.1.len() == n,
        holds_samples(n, o, s, st),
    ensures
        plan_run(n, o, s, f, st).0.len() == n,
        plan_run(n, o, s, f, st).1.len() == n,
        forall|p: int|
            #![trigger plan_run(n, o, s, f, st).0[p]]
            #![trigger plan_run(n, o, s, f, st).1[p]]
            0 <= p < n && p % s != o ==> plan_run(n, o, s, f, st).0[p] == st.0[p] && plan_run(
                n,
                o,
                s,
                f,
                st,
            ).1[p] == st.1[p],
        forall|p: int|
            0 <= p < n && p % s == o ==> #[trigger] dest(f, plan_run(n, o, s, f, st))[p]
                == dft_weights(n, o, s, (p - o) / s),
    decreases n - s,
{
    let r = plan_run(n, o, s, f, st);
    if s >= n {
        assert(r == st);
        assert(s == n);
        assert forall|p: int| 0 <= p < n && p % s == o implies #[trigger] dest(f, r)[p]
            == dft_weights(n, o, s, (p - o) / s) by {
            vstd::arithmetic::div_mod::lemma_small_mod(p as nat, n as nat);
            assert(p == o);
            vstd::arithmetic::div_mod::lemma_fundamental_div_mod_converse(o, s, 0, o);
            assert(st.0[o] == sample(o));
            assert(st.1[o] == sample(o));
            let want = dft_weights(n, o, s, 0);
            assert forall|q: int| #[trigger] want.dom().contains(q) implies q == o by {
                vstd::arithmetic::div_mod::lemma_small_mod(q as nat, n as nat);
            }
            vstd::arithmetic::div_mod::lemma_small_mod(o as nat, n as nat);
            assert(want.dom().contains(o));
            vstd::arithmetic::div_mod::lemma_small_mod(0, n as nat);
            assert(want[o] == 0);
            assert(want =~= sample(o));
        }
    } else {
        lemma_pow2_order(s, n);
        assert(is_pow2(2 * s));
        let count = n / (2 * s);
        vstd::arithmetic::div_mod::lemma_fundamental_div_mod(n, 2 * s);
        assert(n == 2 * (s * count)) by (nonlinear_arith)
            requires n == (2 * s) * count + 0;
        let p1 = plan_spec(n as nat, o as nat, 2 * s as nat, !f);
        let p2 = plan_spec(n as nat, (o + s) as nat, 2 * s as nat, !f);
        let lv = level_spec(n as nat, o as nat, s as nat, f);
        assert(plan_spec(n as nat, o as nat, s as nat, f) == p1 + p2 + lv);
        lemma_run_append(p1 + p2, lv, n, st);
        lemma_run_append(p1, p2, n, st);
        // the even half
        assert forall|p: int| 0 <= p < n && p % (2 * s) == o implies #[trigger] st.0[p] == sample(
            p,
        ) && st.1[p] == sample(p) by {
            lemma_split_residue(p, o, s);
        }
        assert(holds_samples(n, o, 2 * s, st));
        lemma_plan(n, o, 2 * s, !f, st);
        let st1 = plan_run(n, o, 2 * s, !f, st);
        // the odd half
        assert forall|p: int| 0 <= p < n && p % (2 * s) == o + s implies #[trigger] st1.0[p]
            == sample(p) && st1.1[p] == sample(p) by {
            lemma_split_residue(p, o, s);
            assert(st1.0[p] == st.0[p]);
        }
        assert(holds_samples(n, o + s, 2 * s, st1));
        lemma_plan(n, o + s, 2 * s, !f, st1);
        let st2 = plan_run(n, o + s, 2 * s, !f, st1);
        assert(run(p1 + p2, n, st) == st2);
        let src = source(f, st2);
        assert(dest(!f, st2) == src);
        // the level that combines them
        lemma_level(n, o, s, f, st2, count);
        assert(lv.take(count) =~= lv);
        assert(r == level_run(n, o, s, f, st2, count));
        assert forall|p: int| 0 <= p < n && p % s != o implies #[trigger] r.0[p] == st.0[p]
            && r.1[p] == st.1[p] by {
            lemma_split_residue(p, o, s);
            assert(p % (2 * s) != o && p % (2 * s) != o + s);
            assert(st1.0[p] == st.0[p]);
            assert(st1.1[p] == st.1[p]);
            assert(st2.0[p] == st1.0[p] && st2.1[p] == st1.1[p]);
            assert(dest(f, r)[p] == dest(f, st2)[p]);
        }
        assert forall|p: int| 0 <= p < n && p % s == o implies #[trigger] dest(f, r)[p]
            == dft_weights(n, o, s, (p - o) / s) by {
            let k = (p - o) / s;
            vstd::arithmetic::div_mod::lemma_fundamental_div_mod(p, s);
            assert(p == o + k * s) by (nonlinear_arith)
                requires p == s * (p / s) + p % s, p % s == o, k == (p - o) / s, s > 0;
            lemma_mod_shift(o, k, s);
            assert(0 <= k < 2 * count) by (nonlinear_arith)
                requires p == o + k * s, 0 <= p < n, n == 2 * (s * count), 0 <= o < s;
            let kk = if k < count { k } else { k - count };
            assert(0 <= kk < count);
            let ev = o + 2 * (kk * s);
            let od = o + 2 * (kk * s) + s;
            assert(kk * s + s <= s * count) by (nonlinear_arith)
                requires kk < count, s > 0;
            assert(kk * s >= 0) by (nonlinear_arith)
                requires kk >= 0, s > 0;
            assert(0 <= ev < n && 0 <= od < n);
            assert(ev == o + kk * (2 * s)) by (nonlinear_arith)
                requires ev == o + 2 * (kk * s);
            assert(od == (o + s) + kk * (2 * s)) by (nonlinear_arith)
                requires od == o + 2 * (kk * s) + s;
            vstd::arithmetic::div_mod::lemma_fundamental_div_mod_converse(ev - o, 2 * s, kk, 0);
            vstd::arithmetic::div_mod::lemma_fundamental_div_mod_converse(od - (o + s), 2 * s, kk, 0);
            lemma_mod_shift(o, kk, 2 * s);
            lemma_mod_shift(o + s, kk, 2 * s);
            lemma_split_residue(ev, o, s);
            lemma_split_residue(od, o, s);
            // the even output kk, left by the first half and kept by the second
            assert(dest(!f, st1)[ev] == dft_weights(n, o, 2 * s, kk));
            assert(st2.0[ev] == st1.0[ev] && st2.1[ev] == st1.1[ev]);
            assert(src[ev] == dft_weights(n, o, 2 * s, kk));
            assert(src[od] == dft_weights(n, o + s, 2 * s, kk));
            lemma_combine_halves(n, o, s, kk);
            if k < count {
                assert(dest(f, r)[o + kk * s] == low_out(src, n, o, s, kk));
            } else {
                assert(o + kk * s + n / 2 == p) by (nonlinear_arith)
                    requires p == o + k * s, kk == k - count, n / 2 == s * count;
                assert(dest(f, r)[o + kk * s + n / 2] == high_out(src, n, o, s, kk));
            }
        }
    }
}

/// The input buffer of length `n`: position `p` holds sample `p`.
pub open spec fn samples(n: int) -> Seq<Weights> {
    Seq::new(n as nat, |p: int| sample(p))
}

/// Output `k` of the discrete Fourier transform of length `n`:
/// `X[k] = sum over p < n of x[p] * w^(p * k)`, with `w = exp(-2 pi i / n)`.
pub open spec fn dft_output(n: int, k: int) -> Weights {
    Map::new(|p: int| 0 <= p < n, |p: int| (p * k) % n)
}

/// Running the butterflies of the whole transform on a buffer of length `n`
/// (a power of two), with both buffers holding the input, leaves output `k`
/// of its discrete Fourier transform at position `k` of the working buffer.
pub proof fn lemma_plan_is_dft(n: int)
    requires
        is_pow2(n),
        n <= usize::MAX,
    ensures
        run(plan_spec(n as nat, 0, 1, false), n, (samples(n), samples(n))).0.len() == n,
        forall|k: int|
            0 <= k < n ==> #[trigger] run(plan_spec(n as nat, 0, 1, false), n, (samples(n), samples(n))).0[k]
                == dft_output(n, k),
{
    let st = (samples(n), samples(n));
    assert forall|p: int| 0 <= p < n && p % 1 == 0 implies #[trigger] st.0[p] == sample(p) && st.1[p]
        == sample(p) by {}
    assert(is_pow2(1));
    lemma_plan(n, 0, 1, false, st);
    assert forall|k: int| 0 <= k < n implies #[trigger] plan_run(n, 0, 1, false, st).0[k]
        == dft_output(n, k) by {
        assert(dest(false, plan_run(n, 0, 1, false, st))[k] == dft_weights(n, 0, 1, (k - 0) / 1));
        assert(dft_weights(n, 0, 1, k) =~= dft_output(n, k));
    }
}

/// A buffer of length one needs no butterfly: its transform is the element
/// itself, whatever the buffers hold.
pub proof fn lemma_single_element_unchanged(st: Buffers)
    ensures
        plan_spec(1, 0, 1, false).len() == 0,
        run(plan_spec(1, 0, 1, false), 1, st) == st,
        dft_output(1, 0) == sample(0),
{
    assert(dft_output(1, 0) =~= sample(0));
}

/// The coefficient of `w^e` in the value `v` on exact input samples `x`: the
/// sum of `x[p]` over the positions `p < m` that `v` weights by `w^e`.
pub open spec fn coeff(v: Weights, x: Seq<int>, e: int, m: int) -> int
    decreases m,
{
    if m <= 0 {
        0
    } else {
        coeff(v, x, e, m - 1) + if v.dom().contains(m - 1) && v[m - 1] == e {
            x[m - 1]
        } else {
            0
        }
    }
}

/// The input `a * x + b * y`, position by position.
pub open spec fn mix(a: int, x: Seq<int>, b: int, y: Seq<int>) -> Seq<int> {
    Seq::new(x.len(), |p: int| a * x[p] + b * y[p])
}

proof fn lemma_coeff_mix(v: Weights, a: int, x: Seq<int>, b: int, y: Seq<int>, e: int, m: int)
    requires
        x.len() == y.len(),
        m <= x.len(),
    ensures
        coeff(v, mix(a, x, b, y), e, m) == a * coeff(v, x, e, m) + b * coeff(v, y, e, m),
    decreases m,
{
    if m > 0 {
        lemma_coeff_mix(v, a, x, b, y, e, m - 1);
        let cx = coeff(v, x, e, m - 1);
        let cy = coeff(v, y, e, m - 1);
        if v.dom().contains(m - 1) && v[m - 1] == e {
            assert(a * (cx + x[m - 1]) + b * (cy + y[m - 1]) == (a * cx + b * cy) + (a * x[m - 1] + b
                * y[m - 1])) by (nonlinear_arith);
        }
    }
}

/// In exact arithmetic the transform is linear: on the input `a * x + b * y`
/// each output's coefficient of each power of `w` is `a` times that on `x`
/// plus `b` times that on `y`.
pub proof fn lemma_transform_linear(n: int, a: int, x: Seq<int>, b: int, y: Seq<int>, k: int, e: int)
    requires
        is_pow2(n),
        n <= usize::MAX,
        x.len() == n,
        y.len() == n,
        0 <= k < n,
    ensures
        ({
            let out = run(plan_spec(n as nat, 0, 1, false), n, (samples(n), samples(n))).0[k];
            coeff(out, mix(a, x, b, y), e, n) == a * coeff(out, x, e, n) + b * coeff(out, y, e, n)
        }),
{
    lemma_plan_is_dft(n);
    let out = run(plan_spec(n as nat, 0, 1, false), n, (samples(n), samples(n))).0[k];
    lemma_coeff_mix(out, a, x, b, y, e, n);
}

/// In exact arithmetic an all-zero input gives an all-zero transform: every
/// output has coefficient zero for every power of `w`.
pub proof fn lemma_transform_of_zeros(n: int, x: Seq<int>, k: int, e: int)
    requires
        is_pow2(n),
        n <= usize::MAX,
        x.len() == n,
        forall|p: int| 0 <= p < n ==> x[p] == 0,
        0 <= k < n,
    ensures
        coeff(run(plan_spec(n as nat, 0, 1, false), n, (samples(n), samples(n))).0[k], x, e, n) == 0,
{
    let out = run(plan_spec(n as nat, 0, 1, false), n, (samples(n), samples(n))).0[k];
    lemma_coeff_mix(out, 0, x, 0, x, e, n);
    assert(mix(0, x, 0, x) =~= x);
}

proof fn lemma_run_append(a: Seq<Butterfly>, b: Seq<Butterfly>, n: int, st: Buffers)
    ensures
        run(a + b, n, st) == run(b, n, run(a, n, st)),
    decreases b.len(),
{
    if b.len() == 0 {
        assert(a + b =~= a);
    } else {
        assert((a + b).drop_last() =~= a + b.drop_last());
        assert((a + b).last() == b.last());
        lemma_run_append(a, b.drop_last(), n, st);
    }
}

} // verus!
