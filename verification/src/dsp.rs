//! Bookkeeping of the signal processing: sizes and the order of bins of a
//! spectrum, and the sample window of a decimating filter.

use vstd::arithmetic::power2::*;
use vstd::prelude::*;
use vstd::slice::*;

verus! {

/// How several segments of a frame become one value per bin.
#[derive(Clone, Copy, Debug, PartialEq, Eq, Structural)]
pub enum Detector {
    /// Mean power: calm noise, short bursts look weaker.
    Avg,
    /// Maximum: shows short bursts, noise looks higher.
    Peak,
}

impl Detector {
    /// Name of the detector.
    pub fn name(self) -> (s: &'static str)
        ensures
            s@ == match self {
                Detector::Avg => "Avg"@,
                Detector::Peak => "Peak"@,
            },
    {
        match self {
            Detector::Avg => "Avg",
            Detector::Peak => "Peak",
        }
    }
}

/// A power of two.
pub open spec fn is_power_of_two(n: nat) -> bool {
    exists|k: nat| n == #[trigger] pow2(k)
}

proof fn lemma_halved(n: nat)
    requires
        n > 1,
    ensures
        is_power_of_two(n) <==> n % 2 == 0 && is_power_of_two(n / 2),
{
    lemma2_to64();
    if is_power_of_two(n) {
        let k = choose|k: nat| n == #[trigger] pow2(k);
        assert(k > 0);
        lemma_pow2_unfold(k);
        assert(n / 2 == pow2((k - 1) as nat));
    }
    if n % 2 == 0 && is_power_of_two(n / 2) {
        let k = choose|k: nat| n / 2 == #[trigger] pow2(k);
        lemma_pow2_unfold(k + 1);
        assert(n == pow2(k + 1));
    }
}

/// Whether a transform may have this size: a power of two from sixteen on.
pub fn is_valid_size(n: usize) -> (r: bool)
    ensures
        r == (n >= 16 && is_power_of_two(n as nat)),
{
    if n < 16 {
        return false;
    }
    let mut m: usize = n;
    while m > 1
        invariant
            m >= 1,
            is_power_of_two(n as nat) <==> is_power_of_two(m as nat),
        decreases m,
    {
        proof {
            lemma_halved(m as nat);
        }
        if m % 2 == 1 {
            return false;
        }
        m = m / 2;
    }
    proof {
        lemma2_to64();
        assert(1 == pow2(0));
    }
    true
}

/// Number of full segments of `n` samples.
pub fn segments(samples: usize, n: usize) -> (r: usize)
    requires
        n > 0,
    ensures
        r * n <= samples < (r + 1) * n,
{
    proof {
        vstd::arithmetic::div_mod::lemma_fundamental_div_mod(samples as int, n as int);
        assert((samples / n + 1) * n == n * (samples / n) + n) by (nonlinear_arith);
        assert((samples / n) * n == n * (samples / n)) by (nonlinear_arith);
    }
    samples / n
}

/// The transform bin that is shown at place `i` of a centred spectrum of `n`
/// bins.
pub open spec fn shifted(i: int, n: int) -> int {
    (i + n / 2) % n
}

/// The transform bin that is shown at place `i` of a centred spectrum.
pub fn shifted_bin(i: usize, n: usize) -> (r: usize)
    requires
        i < n,
    ensures
        r == shifted(i as int, n as int),
        r < n,
{
    let upper: usize = n - n / 2;
    proof {
        let t = i + n / 2;
        if i < upper {
            vstd::arithmetic::div_mod::lemma_small_mod(t as nat, n as nat);
        } else {
            vstd::arithmetic::div_mod::lemma_fundamental_div_mod_converse(
                t as int,
                n as int,
                1,
                t - n,
            );
        }
    }
    if i < upper {
        i + n / 2
    } else {
        i - upper
    }
}

/// In a spectrum of an even number of bins a positive frequency is as far right
/// of the middle as its bin, a negative one as far left as its bin is from the
/// end, and every bin is shown once.
pub proof fn law_spectrum_is_centred(k: int, n: int)
    requires
        n > 0,
        n % 2 == 0,
        0 <= k < n,
    ensures
        k < n / 2 ==> shifted(n / 2 + k, n) == k,
        k >= n / 2 ==> shifted(k - n / 2, n) == k,
        shifted(shifted(k, n), n) == k,
{
    let h = n / 2;
    if k < h {
        vstd::arithmetic::div_mod::lemma_fundamental_div_mod_converse(h + k + h, n, 1, k);
        vstd::arithmetic::div_mod::lemma_small_mod((k + h) as nat, n as nat);
    } else {
        vstd::arithmetic::div_mod::lemma_small_mod(k as nat, n as nat);
        vstd::arithmetic::div_mod::lemma_fundamental_div_mod_converse(k + h, n, 1, k - h);
    }
}

/// Keeps the last samples in front of a filter and tells when its output is
/// due, which is at every `factor`-th sample.
pub struct Decimator<T> {
    /// Ring buffer of twice the length, so that the window is always in one
    /// piece.
    hist: Vec<T>,
    len: usize,
    pos: usize,
    factor: usize,
    phase: usize,
}

/// What a [`Decimator`] holds.
#[verifier::ext_equal]
#[verifier::reject_recursive_types(T)]
pub struct Window<T> {
    /// The last samples, oldest first.
    pub recent: Seq<T>,
    pub factor: nat,
    /// Samples since the last output.
    pub phase: nat,
}

/// The window with one more sample.
pub open spec fn pushed<T>(w: Window<T>, x: T) -> Window<T> {
    Window {
        recent: w.recent.drop_first().push(x),
        factor: w.factor,
        phase: if w.phase + 1 < w.factor {
            w.phase + 1
        } else {
            0
        },
    }
}

impl<T> View for Decimator<T> {
    type V = Window<T>;

    closed spec fn view(&self) -> Window<T> {
        Window {
            recent: self.hist@.subrange(self.pos as int, self.pos + self.len),
            factor: self.factor as nat,
            phase: self.phase as nat,
        }
    }
}

impl<T: Copy> Decimator<T> {
    /// Both halves of the ring hold the same.
    pub closed spec fn wf(&self) -> bool {
        &&& 0 < self.len <= usize::MAX / 2
        &&& self.hist@.len() == 2 * self.len
        &&& self.pos < self.len
        &&& self.phase == 0 || self.phase < self.factor
        &&& forall|i: int|
            0 <= i < self.len ==> #[trigger] self.hist@[i] == self.hist@[i + self.len]
    }

    /// A window of `len` samples, filled with `zero`.
    pub fn new(zero: T, len: usize, factor: usize) -> (d: Self)
        requires
            0 < len <= usize::MAX / 2,
        ensures
            d.wf(),
            d@ == (Window {
                recent: Seq::new(len as nat, |i: int| zero),
                factor: factor as nat,
                phase: 0,
            }),
    {
        let mut hist: Vec<T> = Vec::new();
        while hist.len() < 2 * len
            invariant
                hist@.len() <= 2 * len,
                len <= usize::MAX / 2,
                forall|i: int| 0 <= i < hist@.len() ==> #[trigger] hist@[i] == zero,
            decreases 2 * len - hist@.len(),
        {
            hist.push(zero);
        }
        let d = Decimator { hist, len, pos: 0, factor, phase: 0 };
        assert(d@.recent =~= Seq::new(len as nat, |i: int| zero));
        d
    }

    /// Takes a sample; whether an output is due.
    pub fn push(&mut self, x: T) -> (due: bool)
        requires
            old(self).wf(),
        ensures
            final(self).wf(),
            final(self)@ == pushed(old(self)@, x),
            due == (old(self)@.phase + 1 >= old(self)@.factor),
            final(self)@.recent.len() == old(self)@.recent.len(),
    {
        let ghost before = self@.recent;
        let ghost all = self.hist@;
        let ghost at = self.pos as int;
        let ghost n = self.len as int;
        self.hist.set(self.pos, x);
        self.hist.set(self.pos + self.len, x);
        self.pos = if self.pos + 1 == self.len {
            0
        } else {
            self.pos + 1
        };
        proof {
            let now = self.hist@;
            assert forall|i: int| 0 <= i < n implies #[trigger] now[i] == now[i + n] by {
                assert(all[i] == all[i + n]);
            }
            let window = now.subrange(self.pos as int, self.pos + n);
            assert forall|i: int| 0 <= i < n implies #[trigger] window[i]
                == before.drop_first().push(x)[i] by {
                if at + 1 == n {
                    assert(now[i] == now[i + n]);
                    if i < n - 1 {
                        assert(all[i] == all[i + n]);
                    }
                }
            }
            assert(window =~= before.drop_first().push(x));
        }
        if self.phase + 1 < self.factor {
            self.phase = self.phase + 1;
            false
        } else {
            self.phase = 0;
            true
        }
    }

    /// The last samples, oldest first.
    pub fn window(&self) -> (w: &[T])
        requires
            self.wf(),
        ensures
            w@ == self@.recent,
    {
        slice_subrange(self.hist.as_slice(), self.pos, self.pos + self.len)
    }
}

/// A window after several samples.
pub open spec fn pushed_all<T>(w: Window<T>, xs: Seq<T>) -> Window<T>
    decreases xs.len(),
{
    if xs.len() == 0 {
        w
    } else {
        pushed(pushed_all(w, xs.drop_last()), xs.last())
    }
}

/// The window always shows the latest samples, in their order.
pub proof fn law_window_shows_latest<T>(w: Window<T>, xs: Seq<T>)
    requires
        w.recent.len() > 0,
    ensures
        pushed_all(w, xs).recent == (w.recent + xs).skip(xs.len() as int),
        pushed_all(w, xs).factor == w.factor,
    decreases xs.len(),
{
    if xs.len() == 0 {
        assert((w.recent + xs).skip(0) =~= w.recent);
    } else {
        law_window_shows_latest(w, xs.drop_last());
        let before = (w.recent + xs.drop_last()).skip(xs.len() - 1);
        assert(before.drop_first().push(xs.last()) =~= (w.recent + xs).skip(xs.len() as int));
    }
}

/// Outputs are due at every `factor`-th sample and at no other: after `n`
/// samples the phase is the rest of `n`.
pub proof fn law_outputs_are_regular<T>(w: Window<T>, xs: Seq<T>)
    requires
        w.phase == 0,
        w.factor > 0,
    ensures
        pushed_all(w, xs).phase == xs.len() % w.factor,
        pushed_all(w, xs).factor == w.factor,
    decreases xs.len(),
{
    if xs.len() == 0 {
        vstd::arithmetic::div_mod::lemma_small_mod(0, w.factor);
    } else {
        law_outputs_are_regular(w, xs.drop_last());
        let n = (xs.len() - 1) as int;
        let f = w.factor as int;
        vstd::arithmetic::div_mod::lemma_fundamental_div_mod(n, f);
        let q = n / f;
        let r = n % f;
        if r + 1 < f {
            assert(n + 1 == q * f + (r + 1)) by (nonlinear_arith)
                requires
                    n == f * q + r,
            ;
            vstd::arithmetic::div_mod::lemma_fundamental_div_mod_converse(n + 1, f, q, r + 1);
        } else {
            assert(n + 1 == (q + 1) * f + 0) by (nonlinear_arith)
                requires
                    n == f * q + r,
                    r + 1 == f,
            ;
            vstd::arithmetic::div_mod::lemma_fundamental_div_mod_converse(n + 1, f, q + 1, 0);
        }
    }
}

} // verus!
