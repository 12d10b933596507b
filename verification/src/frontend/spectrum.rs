//! Spectrum and waterfall.

use crate::classify::Class;
use crate::scanner::SignalEventKind;
use crate::text;
use vstd::arithmetic::div_mod::*;
use vstd::prelude::*;

verus! {

/// Colour and style name per modulation.
pub open spec fn style_of(class: Seq<char>) -> (Seq<char>, Seq<char>) {
    if class == "Träger"@ {
        ("#b9a6e8"@, "cls-carrier"@)
    } else if class == "AM"@ {
        ("#e0796b"@, "cls-am"@)
    } else if class == "FM"@ {
        ("#8fd18b"@, "cls-fm"@)
    } else if class == "GMSK"@ {
        ("#5cc8e0"@, "cls-gmsk"@)
    } else if class == "QPSK"@ {
        ("#e8a3cf"@, "cls-qpsk"@)
    } else {
        ("#7f9ab0"@, "cls-noise"@)
    }
}

/// Colour and style name per modulation.
pub fn class_style(class: &str) -> (r: (&'static str, &'static str))
    ensures
        r.0@ == style_of(class@).0,
        r.1@ == style_of(class@).1,
{
    if text::same(class, "Träger") {
        ("#b9a6e8", "cls-carrier")
    } else if text::same(class, "AM") {
        ("#e0796b", "cls-am")
    } else if text::same(class, "FM") {
        ("#8fd18b", "cls-fm")
    } else if text::same(class, "GMSK") {
        ("#5cc8e0", "cls-gmsk")
    } else if text::same(class, "QPSK") {
        ("#e8a3cf", "cls-qpsk")
    } else {
        ("#7f9ab0", "cls-noise")
    }
}

/// Every class of signal has a style of its own; only noise shares the muted
/// one.
pub proof fn law_classes_have_styles(c: Class)
    ensures
        style_of(crate::classify::label_of(c)).1 == match c {
            Class::Noise => "cls-noise"@,
            Class::Carrier => "cls-carrier"@,
            Class::Am => "cls-am"@,
            Class::Fm => "cls-fm"@,
            Class::Gmsk => "cls-gmsk"@,
            Class::Qpsk => "cls-qpsk"@,
        },
{
    reveal_strlit("Rauschen");
    reveal_strlit("Träger");
    reveal_strlit("AM");
    reveal_strlit("FM");
    reveal_strlit("GMSK");
    reveal_strlit("QPSK");
    assert("Rauschen"@.len() == 8 && "Träger"@.len() == 6);
    assert("AM"@[0] == 'A' && "FM"@[0] == 'F');
    assert("GMSK"@[0] == 'G' && "QPSK"@[0] == 'Q');
}

/// Bins that pixel `x` of `w` shows of `n` bins, without the end: at least one.
pub open spec fn pixel_first(x: int, w: int, n: int) -> int {
    x * n / w
}

pub open spec fn pixel_end(x: int, w: int, n: int) -> int {
    if (x + 1) * n / w <= x * n / w {
        x * n / w + 1
    } else {
        (x + 1) * n / w
    }
}

proof fn lemma_pixel(x: int, w: int, n: int)
    requires
        0 <= x < w,
        n > 0,
    ensures
        0 <= pixel_first(x, w, n) < pixel_end(x, w, n) <= n,
        (x + 1) * n / w <= n,
        x * n <= (x + 1) * n <= w * n,
{
    assert(0 <= x * n) by (nonlinear_arith)
        requires
            0 <= x,
            n > 0,
    ;
    assert(x * n <= (x + 1) * n <= w * n) by (nonlinear_arith)
        requires
            x < w,
            n > 0,
    ;
    assert(x * n <= (w - 1) * n) by (nonlinear_arith)
        requires
            x < w,
            n > 0,
    ;
    assert((w - 1) * n == w * n - n) by (nonlinear_arith);
    lemma_div_pos_is_pos(x * n, w);
    lemma_div_is_ordered((x + 1) * n, w * n, w);
    assert(w * n == n * w) by (nonlinear_arith);
    lemma_div_multiples_vanish(n, w);
    lemma_fundamental_div_mod(x * n, w);
    let q = x * n / w;
    if q >= n {
        assert(w * q >= w * n) by (nonlinear_arith)
            requires
                q >= n,
                w > 0,
        ;
    }
}

/// Several bins per pixel: the range of bins that pixel `x` of `w` shows, so
/// that narrow signals do not disappear.
pub fn pixel_bins(x: usize, w: usize, n: usize) -> (r: (usize, usize))
    requires
        x < w,
        n > 0,
        w * n <= usize::MAX,
    ensures
        r.0 == pixel_first(x as int, w as int, n as int),
        r.1 == pixel_end(x as int, w as int, n as int),
        r.0 < r.1 <= n,
{
    proof {
        lemma_pixel(x as int, w as int, n as int);
    }
    let a: usize = x * n / w;
    let b: usize = (x + 1) * n / w;
    if b <= a {
        (a, a + 1)
    } else {
        (a, b)
    }
}

/// The first pixel begins with the first bin, the last one ends with the last
/// bin, and no bin between two pixels is left out.
pub proof fn law_pixels_cover_all_bins(x: int, w: int, n: int)
    requires
        0 <= x < w,
        n > 0,
    ensures
        pixel_first(0, w, n) == 0,
        pixel_end(w - 1, w, n) == n,
        pixel_first(x + 1, w, n) <= pixel_end(x, w, n),
        pixel_first(x, w, n) <= pixel_first(x + 1, w, n),
{
    lemma_pixel(x, w, n);
    lemma_pixel(w - 1, w, n);
    assert(0 * n == 0);
    lemma_small_mod(0, w as nat);
    lemma_fundamental_div_mod(0, w);
    assert(0int / w == 0) by {
        vstd::arithmetic::div_mod::lemma_div_basics(w);
    }
    assert((w - 1 + 1) * n == n * w) by (nonlinear_arith);
    lemma_div_multiples_vanish(n, w);
    lemma_div_is_ordered(x * n, (x + 1) * n, w);
}

/// What becomes of the held maximum when a new spectrum comes.
#[derive(Clone, Copy, Debug, PartialEq, Eq, Structural)]
pub enum Hold {
    /// Nothing is held.
    Keep,
    /// The new spectrum is held.
    Replace,
    /// The larger value of each bin is held.
    Merge,
}

/// What becomes of the held maximum: spectra of another size replace it.
pub fn hold_step(hold_on: bool, held: Option<usize>, len: usize) -> (r: Hold)
    ensures
        r == (if !hold_on {
            Hold::Keep
        } else if held == Some(len) {
            Hold::Merge
        } else {
            Hold::Replace
        }),
{
    if !hold_on {
        return Hold::Keep;
    }
    match held {
        Some(n) => if n == len {
            Hold::Merge
        } else {
            Hold::Replace
        },
        None => Hold::Replace,
    }
}

/// Direction in which a key moves the marker.
pub fn marker_key(key: &str) -> (r: Option<i8>)
    ensures
        r == (if key@ == "ArrowLeft"@ {
            Some(-1i8)
        } else if key@ == "ArrowRight"@ {
            Some(1i8)
        } else {
            None
        }),
{
    if text::same(key, "ArrowLeft") {
        Some(-1)
    } else if text::same(key, "ArrowRight") {
        Some(1)
    } else {
        None
    }
}

/// What an event says of a signal.
pub fn event_text(kind: SignalEventKind) -> (s: &'static str)
    ensures
        s@ == match kind {
            SignalEventKind::Appeared => "neu"@,
            SignalEventKind::Reclassified => "neu eingestuft"@,
            SignalEventKind::Lost => "verschwunden"@,
        },
{
    match kind {
        SignalEventKind::Appeared => "neu",
        SignalEventKind::Reclassified => "neu eingestuft",
        SignalEventKind::Lost => "verschwunden",
    }
}

/// Name of the detector in words.
pub fn detector_text(detector: Option<&str>) -> (s: &'static str)
    ensures
        s@ == match detector {
            Some(d) => if d@ == "Peak"@ {
                "Spitze"@
            } else {
                "Mittelwert"@
            },
            None => "–"@,
        },
{
    match detector {
        Some(d) => if text::same(d, "Peak") {
            "Spitze"
        } else {
            "Mittelwert"
        },
        None => "–",
    }
}

} // verus!
