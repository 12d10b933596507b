//! Modulation classes and the windows that are classified.
//!
//! A signal is mixed down to 48 kHz, and the window with the most energy goes
//! to the network, so that short bursts are in it too. Per sample the network
//! sees magnitude and instantaneous frequency, and the spectrum of the window.

use crate::order;
use crate::random;
use crate::text;
use vstd::prelude::*;

verus! {

/// Samples per window at 48 kHz, a good 21 ms.
pub const WINDOW: usize = 1024;

/// Feature channels: magnitude, instantaneous frequency, spectrum.
pub const CHANNELS: usize = 3;

/// The first samples behind the filter are still settling.
pub const SETTLE: usize = 32;

/// Windows are tried that far apart.
pub const STEP: usize = 32;

/// Block length of an example, as at 25 spectra per second.
pub const DATASET_BLOCK: usize = 96_000;

/// Number of classes.
pub const CLASSES: usize = 6;

#[derive(Clone, Copy, Debug, PartialEq, Eq, Hash, Structural)]
pub enum Class {
    /// False alarm of the detector: nothing but noise in the window.
    Noise,
    Carrier,
    Am,
    Fm,
    Gmsk,
    Qpsk,
}

/// The classes in the order of the outputs of the network.
pub open spec fn all_classes() -> Seq<Class> {
    seq![Class::Noise, Class::Carrier, Class::Am, Class::Fm, Class::Gmsk, Class::Qpsk]
}

impl Class {
    /// The classes in the order of the outputs of the network.
    pub const ALL: [Class; 6] = [
        Class::Noise,
        Class::Carrier,
        Class::Am,
        Class::Fm,
        Class::Gmsk,
        Class::Qpsk,
    ];

    /// Place among the outputs of the network.
    pub fn index(self) -> (i: usize)
        ensures
            i < CLASSES,
            all_classes()[i as int] == self,
            i == match self {
                Class::Noise => 0usize,
                Class::Carrier => 1,
                Class::Am => 2,
                Class::Fm => 3,
                Class::Gmsk => 4,
                Class::Qpsk => 5,
            },
    {
        match self {
            Class::Noise => 0,
            Class::Carrier => 1,
            Class::Am => 2,
            Class::Fm => 3,
            Class::Gmsk => 4,
            Class::Qpsk => 5,
        }
    }

    /// The class of an output of the network.
    pub fn from_index(i: usize) -> (c: Option<Class>)
        ensures
            c == (if i < CLASSES {
                Some(all_classes()[i as int])
            } else {
                None
            }),
    {
        match i {
            0 => Some(Class::Noise),
            1 => Some(Class::Carrier),
            2 => Some(Class::Am),
            3 => Some(Class::Fm),
            4 => Some(Class::Gmsk),
            5 => Some(Class::Qpsk),
            _ => None,
        }
    }

    /// Name of the class.
    pub fn label(self) -> (s: &'static str)
        ensures
            s@ == label_of(self),
    {
        match self {
            Class::Noise => "Rauschen",
            Class::Carrier => "Träger",
            Class::Am => "AM",
            Class::Fm => "FM",
            Class::Gmsk => "GMSK",
            Class::Qpsk => "QPSK",
        }
    }
}

/// Name of a class.
pub open spec fn label_of(c: Class) -> Seq<char> {
    match c {
        Class::Noise => "Rauschen"@,
        Class::Carrier => "Träger"@,
        Class::Am => "AM"@,
        Class::Fm => "FM"@,
        Class::Gmsk => "GMSK"@,
        Class::Qpsk => "QPSK"@,
    }
}

/// Every class stands at its own place, and has its own name.
pub proof fn law_classes_are_distinct(i: int, j: int)
    requires
        0 <= i < j < CLASSES,
    ensures
        all_classes()[i] != all_classes()[j],
        label_of(all_classes()[i]) != label_of(all_classes()[j]),
{
    reveal_strlit("Rauschen");
    reveal_strlit("Träger");
    reveal_strlit("AM");
    reveal_strlit("FM");
    reveal_strlit("GMSK");
    reveal_strlit("QPSK");
    assert("Rauschen"@.len() == 8 && "Träger"@.len() == 6);
    assert("AM"@[0] == 'A' && "FM"@[0] == 'F');
    assert("GMSK"@[0] == 'G' && "QPSK"@[0] == 'Q');
}

/// Number of windows that are tried in `len` samples.
pub open spec fn windows_in(len: nat) -> nat {
    if len < SETTLE + WINDOW {
        0
    } else {
        ((len - SETTLE - WINDOW) as nat / STEP as nat + 1) as nat
    }
}

/// Number of windows that are tried in `len` samples.
pub fn window_count(len: usize) -> (n: usize)
    ensures
        n == windows_in(len as nat),
{
    if len < SETTLE + WINDOW {
        0
    } else {
        (len - SETTLE - WINDOW) / STEP + 1
    }
}

/// First sample of window `k`.
pub open spec fn window_begin(k: int) -> int {
    SETTLE + STEP * k
}

/// First sample of window `k` of `len` samples.
pub fn window_start(len: usize, k: usize) -> (start: usize)
    requires
        k < windows_in(len as nat),
    ensures
        start == window_begin(k as int),
        start + WINDOW <= len,
{
    SETTLE + STEP * k
}

/// The first sample of the window with the most energy, the last one of
/// several, given the energies of all windows that are tried. `None` if there
/// are too few samples for a window.
pub fn extract(len: usize, energies: &[i64]) -> (r: Option<usize>)
    requires
        energies@.len() == windows_in(len as nat),
    ensures
        r is Some <==> len >= SETTLE + WINDOW,
        r matches Some(start) ==> {
            &&& start + WINDOW <= len
            &&& exists|k: int|
                #![trigger window_begin(k)]
                start == window_begin(k) && order::is_last_max(
                    energies@,
                    0,
                    energies@.len() as int,
                    k,
                )
        },
{
    if energies.len() == 0 {
        return None;
    }
    let k: usize = order::last_max(energies, 0, energies.len());
    let start: usize = window_start(len, k);
    assert(start == window_begin(k as int));
    Some(start)
}

/// The network has the wrong number of outputs.
#[derive(Clone, Copy, Debug, PartialEq, Eq, Structural)]
pub struct WrongOutputs {
    pub got: usize,
}

impl WrongOutputs {
    /// What is wrong, in words.
    pub fn message(&self) -> (s: String)
        ensures
            s@ == "Modell liefert "@ + text::decimal(self.got as nat) + " statt "@ + text::decimal(
                CLASSES as nat,
            ) + " Klassen"@,
    {
        let mut s = String::new();
        text::push_str(&mut s, "Modell liefert ");
        text::push_decimal(&mut s, self.got as u64);
        text::push_str(&mut s, " statt ");
        text::push_decimal(&mut s, CLASSES as u64);
        text::push_str(&mut s, " Klassen");
        assert(s@ =~= "Modell liefert "@ + text::decimal(self.got as nat) + " statt "@
            + text::decimal(CLASSES as nat) + " Klassen"@);
        s
    }
}

/// Accepts the outputs of the network if there is one for every class.
pub fn classify(probs: Vec<i64>) -> (r: Result<Vec<i64>, WrongOutputs>)
    ensures
        match r {
            Ok(v) => probs@.len() == CLASSES && v@ == probs@,
            Err(e) => probs@.len() != CLASSES && e.got == probs@.len(),
        },
{
    if probs.len() != CLASSES {
        return Err(WrongOutputs { got: probs.len() });
    }
    Ok(probs)
}

/// Half, as an `f32`.
pub const HALF: i64 = 0x3F00_0000;

/// A probability of one half or more.
pub open spec fn is_likely(p: i64) -> bool {
    HALF <= p <= order::INFINITY_32
}

/// The network takes the window for noise.
pub open spec fn says_noise(probs: Seq<i64>) -> bool {
    is_likely(probs[0])
}

/// The network takes the window for noise.
pub fn is_noise(probs: &[i64]) -> (r: bool)
    requires
        probs@.len() > 0,
    ensures
        r == says_noise(probs@),
{
    HALF <= probs[0] && probs[0] <= order::INFINITY_32
}

/// Where a burst lies in a block.
#[derive(Clone, Copy, Debug, PartialEq, Eq, Structural)]
pub struct Placement {
    /// Samples of the burst that lie in front of the block.
    pub skip: usize,
    /// Samples of the block that lie in front of the burst.
    pub delay: usize,
}

/// At least that many samples of a burst lie in the block, or all it has.
pub open spec fn overlap(len: int) -> int {
    if len < 30_000 {
        len
    } else {
        30_000
    }
}

/// The first sample of a burst of `len` samples may lie at `start`: enough of
/// the burst lies in the block.
pub open spec fn may_start(len: int, start: int) -> bool {
    overlap(len) - len <= start <= DATASET_BLOCK - overlap(len)
}

/// Samples of the block that hold the burst.
pub open spec fn covered(len: int, p: Placement) -> int {
    if p.delay + (len - p.skip) <= DATASET_BLOCK {
        len - p.skip
    } else {
        DATASET_BLOCK - p.delay
    }
}

/// Where a burst lies that begins at sample `start` of the block, which may be
/// in front of it.
pub fn placed_at(len: usize, start: i64) -> (p: Placement)
    requires
        len <= i64::MAX,
        may_start(len as int, start as int),
    ensures
        p == (Placement {
            skip: (if start < 0 {
                -start
            } else {
                0
            }) as usize,
            delay: (if start > 0 {
                start as int
            } else {
                0
            }) as usize,
        }),
        p.skip <= len,
        p.delay - p.skip == start,
        covered(len as int, p) >= overlap(len as int),
{
    if start < 0 {
        Placement { skip: (-start) as usize, delay: 0 }
    } else {
        Placement { skip: 0, delay: start as usize }
    }
}

/// The first and the last sample at which a burst of `len` samples may begin.
pub fn start_range(len: usize) -> (r: (i64, i64))
    requires
        len <= i64::MAX,
    ensures
        r.0 == overlap(len as int) - len,
        r.1 == DATASET_BLOCK - overlap(len as int),
        forall|start: int| #[trigger]
            may_start(len as int, start) <==> r.0 <= start <= r.1,
{
    let inside: i64 = if len < 30_000 {
        len as i64
    } else {
        30_000
    };
    (inside - len as i64, DATASET_BLOCK as i64 - inside)
}

/// Places a burst of `len` samples by chance, so that it may stick out of the
/// block, but enough of it lies inside. It begins somewhere in
/// [`start_range`]; where, is up to the generator.
pub fn place_burst(len: usize, rng: &mut rand::rngs::StdRng) -> (p: Placement)
    requires
        len <= i64::MAX,
    ensures
        p.skip == 0 || p.delay == 0,
        p.skip <= len,
        may_start(len as int, p.delay - p.skip),
        covered(len as int, p) >= overlap(len as int),
{
    let (first, last): (i64, i64) = start_range(len);
    let start: i64 = random::between(rng, first, last);
    assert(may_start(len as int, start as int));
    placed_at(len, start)
}

} // verus!
