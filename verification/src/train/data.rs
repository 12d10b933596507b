//! Training examples: how they are numbered, spread over threads, shuffled and
//! put into batches, and how the network did on them.

use crate::classify;
use crate::classify::Class;
use crate::order;
use crate::random;
use crate::text;
use vstd::prelude::*;

verus! {

/// Values of one example.
pub const EXAMPLE: usize = 3072;

/// Seed of example `i`. Every example has its own, so that the result does not
/// depend on the number of threads.
pub open spec fn seed_of(seed: u64, i: int) -> int {
    (seed * 1_000_003 + i) % 0x1_0000_0000_0000_0000
}

/// Seed of example `i`.
pub fn example_seed(seed: u64, i: u64) -> (r: u64)
    ensures
        r == seed_of(seed, i as int),
{
    seed.wrapping_mul(1_000_003).wrapping_add(i)
}

/// Different examples of one set have different seeds.
pub proof fn law_seeds_differ(seed: u64, i: u64, j: u64)
    requires
        i != j,
    ensures
        seed_of(seed, i as int) != seed_of(seed, j as int),
{
    let m = 0x1_0000_0000_0000_0000int;
    let a = seed * 1_000_003 + i;
    let b = seed * 1_000_003 + j;
    if a % m == b % m {
        vstd::arithmetic::div_mod::lemma_fundamental_div_mod(a, m);
        vstd::arithmetic::div_mod::lemma_fundamental_div_mod(b, m);
        let d = a / m - b / m;
        assert(a - b == m * d) by (nonlinear_arith)
            requires
                a == m * (a / m) + a % m,
                b == m * (b / m) + b % m,
                a % m == b % m,
                d == a / m - b / m,
        ;
        assert(d == 0) by (nonlinear_arith)
            requires
                a - b == m * d,
                -m < a - b < m,
                m > 0,
        ;
    }
}

/// Class of example `i`: the classes take turns.
pub open spec fn class_of(i: int) -> int {
    i % classify::CLASSES as int
}

/// Class of example `i`.
pub fn example_class(i: usize) -> (c: Class)
    ensures
        c == classify::all_classes()[class_of(i as int)],
{
    match Class::from_index(i % classify::CLASSES) {
        Some(c) => c,
        None => Class::Noise,
    }
}

/// Class numbers of `n` examples.
pub fn labels(n: usize) -> (r: Vec<u32>)
    ensures
        r@.len() == n,
        forall|i: int| 0 <= i < n ==> #[trigger] r@[i] == class_of(i),
{
    let mut r: Vec<u32> = Vec::new();
    let mut i: usize = 0;
    while i < n
        invariant
            i <= n,
            r@.len() == i,
            forall|k: int| 0 <= k < i ==> #[trigger] r@[k] == class_of(k),
        decreases n - i,
    {
        r.push((i % classify::CLASSES) as u32);
        i += 1;
    }
    r
}

/// Begin of piece `k` of `n` items in pieces of `size`.
pub open spec fn piece_begin(k: int, n: int, size: int) -> int {
    if k * size < n {
        k * size
    } else {
        n
    }
}

/// `n` items in pieces of `size`: begin and end of each. Only the last one may
/// be smaller.
pub fn pieces(n: usize, size: usize) -> (r: Vec<(usize, usize)>)
    requires
        size > 0,
    ensures
        forall|k: int|
            0 <= k < r@.len() ==> {
                &&& (#[trigger] r@[k]).0 == piece_begin(k, n as int, size as int)
                &&& r@[k].1 == piece_begin(k + 1, n as int, size as int)
                &&& r@[k].0 < r@[k].1
            },
        r@.len() * size >= n,
        r@.len() > 0 ==> (r@.len() - 1) * size < n,
{
    let mut r: Vec<(usize, usize)> = Vec::new();
    let mut from: usize = 0;
    assert(0 * size == 0);
    while from < n
        invariant
            from <= n,
            size > 0,
            from == piece_begin(r@.len() as int, n as int, size as int),
            r@.len() > 0 ==> (r@.len() - 1) * size < n,
            forall|k: int|
                0 <= k < r@.len() ==> {
                    &&& (#[trigger] r@[k]).0 == piece_begin(k, n as int, size as int)
                    &&& r@[k].1 == piece_begin(k + 1, n as int, size as int)
                    &&& r@[k].0 < r@[k].1
                },
        decreases n - from,
    {
        let to: usize = if n - from > size {
            from + size
        } else {
            n
        };
        proof {
            let k = r@.len() as int;
            assert((k + 1) * size == k * size + size) by (nonlinear_arith);
        }
        r.push((from, to));
        from = to;
    }
    r
}

/// How many examples a thread gets: an equal share, rounded up.
pub open spec fn share_size(n: int, threads: int) -> int {
    n / threads + if n % threads > 0 {
        1int
    } else {
        0int
    }
}

/// The share of every thread: `n` examples on `threads` threads. They follow
/// each other, so that their results in order are the results of all examples
/// in order.
pub fn shares(n: usize, threads: usize) -> (r: Vec<(usize, usize)>)
    requires
        n > 0,
        threads > 0,
    ensures
        forall|k: int|
            0 <= k < r@.len() ==> {
                &&& (#[trigger] r@[k]).0 == piece_begin(
                    k,
                    n as int,
                    share_size(n as int, threads as int),
                )
                &&& r@[k].1 == piece_begin(k + 1, n as int, share_size(n as int, threads as int))
            },
        0 < r@.len() <= threads,
        r@[0].0 == 0,
        r@[r@.len() - 1].1 == n,
        forall|k: int| 0 < k < r@.len() ==> (#[trigger] r@[k]).0 == r@[k - 1].1,
        forall|k: int| 0 <= k < r@.len() ==> (#[trigger] r@[k]).0 < r@[k].1,
{
    proof {
        if threads == 1 {
            vstd::arithmetic::div_mod::lemma_fundamental_div_mod(n as int, 1);
        } else {
            vstd::arithmetic::div_mod::lemma_div_decreases(n as int, threads as int);
        }
    }
    let chunk: usize = n / threads + if n % threads > 0 {
        1
    } else {
        0
    };
    proof {
        vstd::arithmetic::div_mod::lemma_fundamental_div_mod(n as int, threads as int);
        let q = n as int / threads as int;
        let t = threads as int;
        assert(chunk * t >= n) by (nonlinear_arith)
            requires
                n == t * q + n as int % t,
                0 <= n as int % t < t,
                chunk == q + (if n as int % t > 0 {
                    1int
                } else {
                    0int
                }),
        ;
        if chunk == 0 {
            assert(chunk * t == 0) by (nonlinear_arith)
                requires
                    chunk == 0,
            ;
        }
    }
    let r: Vec<(usize, usize)> = pieces(n, chunk);
    proof {
        let m = r@.len() as int;
        let c = chunk as int;
        let t = threads as int;
        if m == 0 {
            assert(m * c == 0);
        }
        assert(0 * c == 0);
        if m > t {
            assert((m - 1) * c >= t * c) by (nonlinear_arith)
                requires
                    m > t,
                    c >= 0,
            ;
            assert(t * c == c * t) by (nonlinear_arith);
        }
        assert forall|k: int| 0 < k < r@.len() implies (#[trigger] r@[k]).0 == r@[k - 1].1 by {
            assert(r@[k - 1].1 == piece_begin(k - 1 + 1, n as int, c));
        }
        assert(r@[m - 1].1 == piece_begin(m - 1 + 1, n as int, c));
        assert(r@[0].0 == piece_begin(0, n as int, c));
    }
    r
}

/// The numbers below `n`, each once, in some order.
pub open spec fn is_order(order: Seq<usize>, n: nat) -> bool {
    order.to_multiset() == numbers(n).to_multiset()
}

/// The numbers below `n`.
pub open spec fn numbers(n: nat) -> Seq<usize> {
    Seq::new(n, |i: int| i as usize)
}

/// The numbers below `n` in order.
pub fn in_order(n: usize) -> (r: Vec<usize>)
    ensures
        r@ == numbers(n as nat),
        is_order(r@, n as nat),
{
    let mut r: Vec<usize> = Vec::new();
    let mut i: usize = 0;
    while i < n
        invariant
            i <= n,
            r@ =~= numbers(i as nat),
        decreases n - i,
    {
        r.push(i);
        i += 1;
    }
    r
}

/// Shuffles the order of the examples for the next epoch and cuts it into
/// batches. Every example comes up exactly once, whatever the outcome.
pub fn next_epoch(order: &mut Vec<usize>, batch: usize, rng: &mut rand::rngs::StdRng) -> (r: Vec<
    (usize, usize),
>)
    requires
        batch > 0,
    ensures
        final(order)@.to_multiset() == old(order)@.to_multiset(),
        final(order)@.len() == old(order)@.len(),
        forall|k: int|
            0 <= k < r@.len() ==> {
                &&& (#[trigger] r@[k]).0 == piece_begin(
                    k,
                    old(order)@.len() as int,
                    batch as int,
                )
                &&& r@[k].1 == piece_begin(k + 1, old(order)@.len() as int, batch as int)
                &&& r@[k].0 < r@[k].1
            },
        r@.len() * batch >= old(order)@.len(),
        r@.len() > 0 ==> (r@.len() - 1) * batch < old(order)@.len(),
{
    let ghost before = order@;
    random::shuffle(order, rng);
    proof {
        before.to_multiset_ensures();
        order@.to_multiset_ensures();
    }
    pieces(order.len(), batch)
}

/// Place of the largest probability, the last one of several; zero if there is
/// none.
pub fn argmax(p: &[i64]) -> (r: usize)
    ensures
        p@.len() == 0 ==> r == 0,
        p@.len() > 0 ==> order::is_last_max(p@, 0, p@.len() as int, r as int),
{
    if p.len() == 0 {
        return 0;
    }
    order::last_max(p, 0, p.len())
}

/// How many of the first `k` examples of class `a` were taken for class `b`.
pub open spec fn confused(truth: Seq<u32>, found: Seq<usize>, a: int, b: int, k: nat) -> nat
    decreases k,
{
    if k == 0 {
        0
    } else {
        confused(truth, found, a, b, (k - 1) as nat) + if truth[k - 1] == a && found[k - 1] == b {
            1nat
        } else {
            0nat
        }
    }
}

/// The confusion matrix: one row per true class, one column per found class.
pub fn confusion(truth: &[u32], found: &[usize]) -> (m: Vec<Vec<usize>>)
    requires
        truth@.len() == found@.len(),
        forall|i: int| 0 <= i < truth@.len() ==> #[trigger] truth@[i] < classify::CLASSES,
        forall|i: int| 0 <= i < found@.len() ==> #[trigger] found@[i] < classify::CLASSES,
    ensures
        m@.len() == classify::CLASSES,
        forall|a: int|
            0 <= a < classify::CLASSES ==> (#[trigger] m@[a])@.len() == classify::CLASSES,
        forall|a: int, b: int|
            0 <= a < classify::CLASSES && 0 <= b < classify::CLASSES ==> #[trigger] m@[a]@[b]
                == confused(truth@, found@, a, b, truth@.len()),
{
    let mut m: Vec<Vec<usize>> = Vec::new();
    while m.len() < classify::CLASSES
        invariant
            m@.len() <= classify::CLASSES,
            forall|a: int|
                0 <= a < m@.len() ==> (#[trigger] m@[a])@.len() == classify::CLASSES && forall|
                    b: int,
                |
                    0 <= b < classify::CLASSES ==> #[trigger] m@[a]@[b] == 0,
        decreases classify::CLASSES - m@.len(),
    {
        m.push(vec![0; classify::CLASSES]);
    }
    let mut k: usize = 0;
    while k < truth.len()
        invariant
            k <= truth@.len() == found@.len(),
            forall|i: int| 0 <= i < truth@.len() ==> #[trigger] truth@[i] < classify::CLASSES,
            forall|i: int| 0 <= i < found@.len() ==> #[trigger] found@[i] < classify::CLASSES,
            m@.len() == classify::CLASSES,
            forall|a: int|
                0 <= a < classify::CLASSES ==> (#[trigger] m@[a])@.len() == classify::CLASSES,
            forall|a: int, b: int|
                0 <= a < classify::CLASSES && 0 <= b < classify::CLASSES ==> #[trigger] m@[a]@[b]
                    == confused(truth@, found@, a, b, k as nat) && m@[a]@[b] <= k,
        decreases truth@.len() - k,
    {
        let a: usize = truth[k] as usize;
        let b: usize = found[k];
        let ghost before = m@;
        assert(m@[a as int]@[b as int] <= k);
        let row: &mut Vec<usize> = &mut m[a];
        let count: usize = row[b] + 1;
        row.set(b, count);
        k += 1;
        assert forall|x: int, y: int|
            0 <= x < classify::CLASSES && 0 <= y < classify::CLASSES implies #[trigger] m@[x]@[y]
            == confused(truth@, found@, x, y, k as nat) && m@[x]@[y] <= k by {
            assert(before[x]@[y] == confused(truth@, found@, x, y, (k - 1) as nat));
        }
    }
    m
}

/// How many of the first `k` examples were recognised.
pub open spec fn recognised(truth: Seq<u32>, found: Seq<usize>, k: nat) -> nat
    decreases k,
{
    if k == 0 {
        0
    } else {
        recognised(truth, found, (k - 1) as nat) + if truth[k - 1] == found[k - 1] {
            1nat
        } else {
            0nat
        }
    }
}

/// How many examples were recognised.
pub fn correct(truth: &[u32], found: &[usize]) -> (r: usize)
    requires
        truth@.len() == found@.len(),
    ensures
        r == recognised(truth@, found@, truth@.len()),
        r <= truth@.len(),
{
    let mut r: usize = 0;
    let mut k: usize = 0;
    while k < truth.len()
        invariant
            k <= truth@.len() == found@.len(),
            r == recognised(truth@, found@, k as nat),
            r <= k,
        decreases truth@.len() - k,
    {
        if truth[k] as usize == found[k] {
            r += 1;
        }
        k += 1;
    }
    r
}

/// Sum over the diagonal of the confusion matrix, up to class `c`.
pub open spec fn diagonal(truth: Seq<u32>, found: Seq<usize>, c: nat, k: nat) -> nat
    decreases c,
{
    if c == 0 {
        0
    } else {
        diagonal(truth, found, (c - 1) as nat, k) + confused(truth, found, c - 1, c - 1, k)
    }
}

/// The diagonal of the confusion matrix counts the recognised examples.
pub proof fn law_diagonal_counts_recognised(truth: Seq<u32>, found: Seq<usize>, k: nat)
    requires
        k <= truth.len() == found.len(),
        forall|i: int| 0 <= i < truth.len() ==> #[trigger] truth[i] < classify::CLASSES,
    ensures
        diagonal(truth, found, classify::CLASSES as nat, k) == recognised(truth, found, k),
    decreases k,
{
    if k == 0 {
        lemma_empty_diagonal(truth, found, classify::CLASSES as nat);
    } else {
        law_diagonal_counts_recognised(truth, found, (k - 1) as nat);
        assert(truth[k - 1] < classify::CLASSES);
        lemma_diagonal_step(truth, found, classify::CLASSES as nat, k);
    }
}

proof fn lemma_empty_diagonal(truth: Seq<u32>, found: Seq<usize>, c: nat)
    ensures
        diagonal(truth, found, c, 0) == 0,
    decreases c,
{
    if c > 0 {
        lemma_empty_diagonal(truth, found, (c - 1) as nat);
    }
}

proof fn lemma_diagonal_step(truth: Seq<u32>, found: Seq<usize>, c: nat, k: nat)
    requires
        0 < k <= truth.len() == found.len(),
    ensures
        diagonal(truth, found, c, k) == diagonal(truth, found, c, (k - 1) as nat) + if truth[k - 1]
            == found[k - 1] && truth[k - 1] < c {
            1nat
        } else {
            0nat
        },
    decreases c,
{
    if c > 0 {
        lemma_diagonal_step(truth, found, (c - 1) as nat, k);
    }
}

/// The class names as they are written into a model.
pub fn class_list() -> (r: String)
    ensures
        r@ == text::join(
            seq![
                classify::label_of(Class::Noise),
                classify::label_of(Class::Carrier),
                classify::label_of(Class::Am),
                classify::label_of(Class::Fm),
                classify::label_of(Class::Gmsk),
                classify::label_of(Class::Qpsk),
            ],
            ',',
        ),
{
    let names: Vec<String> = vec![
        text::copied(Class::Noise.label()),
        text::copied(Class::Carrier.label()),
        text::copied(Class::Am.label()),
        text::copied(Class::Fm.label()),
        text::copied(Class::Gmsk.label()),
        text::copied(Class::Qpsk.label()),
    ];
    assert(text::views(names@) =~= seq![
        classify::label_of(Class::Noise),
        classify::label_of(Class::Carrier),
        classify::label_of(Class::Am),
        classify::label_of(Class::Fm),
        classify::label_of(Class::Gmsk),
        classify::label_of(Class::Qpsk),
    ]);
    text::joined(&names, ',')
}

/// What is written into a model beside its network: the classes, the input, how
/// it did on the validation examples, and the seed.
pub fn metadata(accuracy: &str, seed: u64) -> (r: Vec<(String, String)>)
    ensures
        r@.len() == 4,
        r@[0].0@ == "classes"@,
        r@[0].1@ == text::join(
            seq![
                classify::label_of(Class::Noise),
                classify::label_of(Class::Carrier),
                classify::label_of(Class::Am),
                classify::label_of(Class::Fm),
                classify::label_of(Class::Gmsk),
                classify::label_of(Class::Qpsk),
            ],
            ',',
        ),
        r@[1].0@ == "input"@,
        r@[1].1@ == text::decimal(classify::CHANNELS as nat) + "x"@ + text::decimal(
            classify::WINDOW as nat,
        ) + " bei 48 kHz: Betrag, Momentanfrequenz/5 kHz, Spektrum"@,
        r@[2].0@ == "validation_accuracy"@,
        r@[2].1@ == accuracy@,
        r@[3].0@ == "seed"@,
        r@[3].1@ == text::decimal(seed as nat),
{
    let mut input = String::new();
    text::push_decimal(&mut input, classify::CHANNELS as u64);
    text::push_str(&mut input, "x");
    text::push_decimal(&mut input, classify::WINDOW as u64);
    text::push_str(&mut input, " bei 48 kHz: Betrag, Momentanfrequenz/5 kHz, Spektrum");
    assert(input@ =~= text::decimal(classify::CHANNELS as nat) + "x"@ + text::decimal(
        classify::WINDOW as nat,
    ) + " bei 48 kHz: Betrag, Momentanfrequenz/5 kHz, Spektrum"@);
    let mut number = String::new();
    text::push_decimal(&mut number, seed);
    assert(number@ =~= text::decimal(seed as nat));
    let mut r: Vec<(String, String)> = Vec::new();
    r.push((text::copied("classes"), class_list()));
    r.push((text::copied("input"), input));
    r.push((text::copied("validation_accuracy"), text::copied(accuracy)));
    r.push((text::copied("seed"), number));
    r
}

/// The examples on which the exported model is compared with the trained one:
/// every so many, so that it is about sixty.
pub fn probes(n: usize) -> (r: Vec<usize>)
    requires
        n >= 60,
    ensures
        forall|k: int|
            0 <= k < r@.len() ==> (#[trigger] r@[k]) == k * (n as int / 60) && r@[k] < n,
        r@.len() * (n as int / 60) >= n,
{
    let step: usize = n / 60;
    let mut r: Vec<usize> = Vec::new();
    let mut i: usize = 0;
    let mut more: bool = true;
    assert(0 * (n as int / 60) == 0);
    while more
        invariant
            step == n / 60,
            step >= 1,
            more ==> i < n && i == r@.len() * (n as int / 60),
            !more ==> r@.len() * (n as int / 60) >= n,
            forall|k: int|
                0 <= k < r@.len() ==> (#[trigger] r@[k]) == k * (n as int / 60) && r@[k] < n,
        decreases (if more {
            n - i
        } else {
            0
        }),
    {
        r.push(i);
        proof {
            let k = r@.len() as int;
            let s = n as int / 60;
            assert(k * s == (k - 1) * s + s) by (nonlinear_arith);
        }
        if n - i > step {
            i += step;
        } else {
            more = false;
        }
    }
    r
}

/// One more example counts in the row of its true class and the column of the
/// class that was found, and nowhere else.
pub proof fn law_example_counts_once(
    truth: Seq<u32>,
    found: Seq<usize>,
    t: u32,
    f: usize,
    a: int,
    b: int,
)
    requires
        truth.len() == found.len(),
    ensures
        confused(truth, found, a, b, 0) == 0,
        confused(truth.push(t), found.push(f), a, b, truth.len() + 1) == confused(
            truth,
            found,
            a,
            b,
            truth.len(),
        ) + (if t == a && f == b {
            1nat
        } else {
            0nat
        }),
        recognised(truth.push(t), found.push(f), truth.len() + 1) == recognised(
            truth,
            found,
            truth.len(),
        ) + (if t == f {
            1nat
        } else {
            0nat
        }),
{
    lemma_prefix_counts(truth, found, t, f, a, b, truth.len());
}

proof fn lemma_prefix_counts(
    truth: Seq<u32>,
    found: Seq<usize>,
    t: u32,
    f: usize,
    a: int,
    b: int,
    k: nat,
)
    requires
        k <= truth.len() == found.len(),
    ensures
        confused(truth.push(t), found.push(f), a, b, k) == confused(truth, found, a, b, k),
        recognised(truth.push(t), found.push(f), k) == recognised(truth, found, k),
    decreases k,
{
    if k > 0 {
        lemma_prefix_counts(truth, found, t, f, a, b, (k - 1) as nat);
    }
}

/// Pieces begin at the first item, follow each other, and are all of the same
/// size but the last.
pub proof fn law_pieces_are_of_one_size(k: int, n: int, size: int)
    requires
        k >= 0,
        n >= 0,
        size > 0,
    ensures
        piece_begin(0, n, size) == 0,
        piece_begin(k + 1, n, size) <= n,
        piece_begin(k + 1, n, size) < n ==> piece_begin(k + 1, n, size) - piece_begin(k, n, size)
            == size,
        0 <= piece_begin(k + 1, n, size) - piece_begin(k, n, size) <= size,
{
    assert(0 * size == 0);
    assert((k + 1) * size == k * size + size) by (nonlinear_arith);
    assert(k * size >= 0) by (nonlinear_arith)
        requires
            k >= 0,
            size > 0,
    ;
}

/// The classes take turns: six examples in a row are one of each.
pub proof fn law_classes_take_turns(i: int)
    requires
        i >= 0,
    ensures
        0 <= class_of(i) < 6,
        class_of(0) == 0,
        class_of(i + 1) == (if class_of(i) == 5 {
            0
        } else {
            class_of(i) + 1
        }),
{
}

} // verus!
