//! Bit fields of AIS payloads: most significant bit first, signed fields in
//! two's complement, text in six-bit ASCII.

use crate::text;
use vstd::arithmetic::div_mod::*;
use vstd::arithmetic::power2::*;
use vstd::bits::*;
use vstd::prelude::*;

verus! {

/// The low `n` bits of `v`, most significant first; two's complement for
/// negative `v`.
pub open spec fn field(v: int, n: nat) -> Seq<bool>
    decreases n,
{
    if n == 0 {
        Seq::empty()
    } else {
        field(v / 2, (n - 1) as nat).push(v % 2 == 1)
    }
}

/// The number that `bits` write, most significant first.
pub open spec fn value(bits: Seq<bool>) -> nat
    decreases bits.len(),
{
    if bits.len() == 0 {
        0
    } else {
        2 * value(bits.drop_last()) + if bits.last() {
            1nat
        } else {
            0nat
        }
    }
}

/// The number that `bits` write in two's complement.
pub open spec fn signed_value(bits: Seq<bool>) -> int {
    if bits.len() > 0 && bits[0] {
        value(bits) - pow2(bits.len())
    } else {
        value(bits) as int
    }
}

pub proof fn lemma_field_len(v: int, n: nat)
    ensures
        field(v, n).len() == n,
    decreases n,
{
    if n > 0 {
        lemma_field_len(v / 2, (n - 1) as nat);
    }
}

/// A field read back gives the written number modulo its width.
pub proof fn lemma_value_of_field(v: int, n: nat)
    ensures
        value(field(v, n)) == v % (pow2(n) as int),
    decreases n,
{
    lemma2_to64();
    if n > 0 {
        let m = pow2((n - 1) as nat) as int;
        let half = v / 2;
        lemma_field_len(v, n);
        lemma_value_of_field(half, (n - 1) as nat);
        assert(field(v, n).drop_last() =~= field(half, (n - 1) as nat));
        lemma_pow2_unfold(n);
        lemma_pow2_pos((n - 1) as nat);
        lemma_fundamental_div_mod(half, m);
        let q = half / m;
        let r = half % m;
        assert(v == q * (2 * m) + (2 * r + v % 2)) by (nonlinear_arith)
            requires
                half == m * q + r,
                half == v / 2,
        ;
        lemma_fundamental_div_mod_converse(v, 2 * m, q, 2 * r + v % 2);
    }
}

/// Writing what `bits` say in as many bits gives `bits` back.
pub proof fn lemma_field_of_value(bits: Seq<bool>)
    ensures
        field(value(bits) as int, bits.len()) == bits,
    decreases bits.len(),
{
    if bits.len() > 0 {
        let v = value(bits) as int;
        lemma_field_of_value(bits.drop_last());
        assert(v / 2 == value(bits.drop_last()));
        assert(field(v, bits.len()) =~= bits);
    } else {
        assert(field(value(bits) as int, bits.len()) =~= bits);
    }
}

pub proof fn lemma_value_bound(bits: Seq<bool>)
    ensures
        value(bits) < pow2(bits.len()),
    decreases bits.len(),
{
    lemma2_to64();
    if bits.len() > 0 {
        lemma_value_bound(bits.drop_last());
        lemma_pow2_unfold(bits.len());
    }
}

/// The first bit is set exactly from half of the range on.
pub proof fn lemma_first_bit(bits: Seq<bool>)
    requires
        bits.len() > 0,
    ensures
        bits[0] <==> value(bits) >= pow2((bits.len() - 1) as nat),
    decreases bits.len(),
{
    lemma2_to64();
    if bits.len() > 1 {
        lemma_first_bit(bits.drop_last());
        lemma_pow2_unfold((bits.len() - 1) as nat);
    } else {
        assert(value(bits.drop_last()) == 0);
    }
}

/// A number in the range of a signed field of `n` bits survives it.
pub proof fn lemma_signed_of_field(v: int, n: nat)
    requires
        n > 0,
        -(pow2((n - 1) as nat) as int) <= v < pow2((n - 1) as nat),
    ensures
        signed_value(field(v, n)) == v,
{
    let bits = field(v, n);
    lemma_field_len(v, n);
    lemma_value_of_field(v, n);
    lemma_first_bit(bits);
    lemma_pow2_unfold(n);
    let m = pow2(n) as int;
    if v >= 0 {
        lemma_small_mod(v as nat, pow2(n));
    } else {
        lemma_fundamental_div_mod_converse(v, m, -1, v + m);
    }
}

/// A field depends on its number modulo its width only.
pub proof fn lemma_field_mod(v: int, n: nat)
    ensures
        field(v % (pow2(n) as int), n) == field(v, n),
{
    lemma_field_len(v, n);
    lemma_value_of_field(v, n);
    lemma_field_of_value(field(v, n));
}

/// A number below `2^n` survives a field of `n` bits.
pub proof fn lemma_unsigned_of_field(v: nat, n: nat)
    requires
        v < pow2(n),
    ensures
        value(field(v as int, n)) == v,
{
    lemma_value_of_field(v as int, n);
    lemma_small_mod(v, pow2(n));
}

/// Six-bit code of a character: `@A..Z[\]^_` are 0 to 31, space to `?` are 32
/// to 63. Letters lose their case, anything else becomes `?`.
pub open spec fn sixbit_code(c: char) -> u8 {
    if 'a' <= c <= 'z' {
        (c as u8 - 96) as u8
    } else if '@' <= c <= '_' {
        (c as u8 - 64) as u8
    } else if ' ' <= c <= '?' {
        c as u8
    } else {
        63
    }
}

/// Character of a six-bit code.
pub open spec fn sixbit_char(v: nat) -> char {
    if v < 32 {
        (v + 64) as char
    } else {
        v as char
    }
}

/// Text of exactly `n` characters: `s` cut or filled up with `@`.
pub open spec fn text_field(s: Seq<char>, n: nat) -> Seq<bool>
    decreases n,
{
    if n == 0 {
        Seq::empty()
    } else {
        let i = n - 1;
        text_field(s, i as nat) + field(
            if i < s.len() {
                sixbit_code(s[i]) as int
            } else {
                0
            },
            6,
        )
    }
}

/// `n` characters from the front of `bits`, fill included.
pub open spec fn text_chars(bits: Seq<bool>, n: nat) -> Seq<char> {
    Seq::new(n, |i: int| sixbit_char(value(bits.subrange(6 * i, 6 * i + 6))))
}

pub open spec fn is_fill(c: char) -> bool {
    c == '@' || c == ' '
}

/// `s` without fill characters at its end.
pub open spec fn trim_fill(s: Seq<char>) -> Seq<char>
    decreases s.len(),
{
    if s.len() > 0 && is_fill(s.last()) {
        trim_fill(s.drop_last())
    } else {
        s
    }
}

/// Six-bit code of a character.
pub fn sixbit(c: char) -> (code: u8)
    ensures
        code == sixbit_code(c),
        code < 64,
{
    if 'a' <= c && c <= 'z' {
        c as u8 - 96
    } else if '@' <= c && c <= '_' {
        c as u8 - 64
    } else if ' ' <= c && c <= '?' {
        c as u8
    } else {
        63
    }
}

/// Collects the bits of a payload.
pub struct BitWriter {
    bits: Vec<bool>,
}

impl View for BitWriter {
    type V = Seq<bool>;

    closed spec fn view(&self) -> Seq<bool> {
        self.bits@
    }
}

impl Default for BitWriter {
    fn default() -> (w: Self)
        ensures
            w@ == Seq::<bool>::empty(),
    {
        BitWriter { bits: Vec::new() }
    }
}

impl BitWriter {
    /// Appends the low `n` bits of `v`. Only zero can be written wider than a
    /// word.
    pub fn uint(&mut self, v: u64, n: usize)
        requires
            n <= 64 || v == 0,
        ensures
            final(self)@ == old(self)@ + field(v as int, n as nat),
    {
        let mut i: usize = n;
        let ghost before = self.bits@;
        proof {
            if n <= 63 {
                lemma_u64_shr_is_div(v, n as u64);
            }
            assert(before + field(0, 0) =~= before);
        }
        let mut rest: u64 = if n < 64 {
            v >> n
        } else {
            0
        };
        while i > 0
            invariant
                i <= n,
                n <= 64 || v == 0,
                rest == (if i < 64 {
                    v >> (i as u64)
                } else {
                    0
                }),
                self.bits@ == before + field(rest as int, (n - i) as nat),
            decreases i,
        {
            i -= 1;
            let next: u64 = if i < 64 {
                v >> i
            } else {
                0
            };
            proof {
                let j = i as u64;
                if i < 63 {
                    assert((v >> j) / 2 == v >> ((j + 1) as u64)) by (bit_vector)
                        requires
                            j < 63,
                    ;
                } else {
                    assert((v >> 63) / 2 == 0) by (bit_vector);
                }
                assert(next & 1 == next % 2) by (bit_vector);
                assert(before + field(next as int, (n - i) as nat) =~= (before + field(
                    next as int / 2,
                    (n - i - 1) as nat,
                )).push(next as int % 2 == 1));
            }
            self.bits.push(next & 1 == 1);
            rest = next;
        }
        proof {
            assert(v >> 0 == v) by (bit_vector);
        }
    }

    /// Appends `v` in two's complement.
    pub fn signed(&mut self, v: i64, n: usize)
        requires
            n <= 63,
        ensures
            final(self)@ == old(self)@ + field(v as int, n as nat),
    {
        proof {
            lemma2_to64();
            lemma_pow2_pos(n as nat);
            lemma_u64_pow2_no_overflow(n as nat);
            lemma_u64_shl_is_mul(1, n as u64);
            lemma_u64_low_bits_mask_is_mod(v as u64, n as nat);
            lemma_pow2_adds(n as nat, (64 - n) as nat);
            let m = pow2(n as nat) as int;
            let k = pow2((64 - n) as nat) as int;
            assert(v as u64 == if v < 0 {
                v + 0x1_0000_0000_0000_0000
            } else {
                v as int
            }) by (bit_vector);
            lemma_mod_multiples_vanish(k, v as int, m);
            lemma_field_mod(v as int, n as nat);
        }
        let mask: u64 = (1u64 << n) - 1;
        self.uint(v as u64 & mask, n);
    }

    /// Appends exactly `chars` characters, filled up with `@`.
    pub fn text(&mut self, s: &str, chars: usize)
        ensures
            final(self)@ == old(self)@ + text_field(s@, chars as nat),
    {
        let letters: Vec<char> = text::chars(s);
        let mut i: usize = 0;
        let ghost before = self@;
        assert(before + text_field(s@, 0) =~= before);
        while i < chars
            invariant
                i <= chars,
                letters@ == s@,
                self@ == before + text_field(s@, i as nat),
            decreases chars - i,
        {
            let code: u8 = if i < letters.len() {
                sixbit(letters[i])
            } else {
                0
            };
            let ghost mid = self@;
            self.uint(code as u64, 6);
            i += 1;
            assert(self@ =~= before + text_field(s@, i as nat));
        }
    }

    /// The collected bits.
    pub fn into_bits(self) -> (bits: Vec<bool>)
        ensures
            bits@ == self@,
    {
        self.bits
    }
}

/// Reads fields from the front of a payload.
pub struct BitReader<'a> {
    bits: &'a [bool],
    pos: usize,
}

impl<'a> View for BitReader<'a> {
    type V = Seq<bool>;

    /// What is still unread.
    closed spec fn view(&self) -> Seq<bool> {
        self.bits@.skip(self.pos as int)
    }
}

impl<'a> BitReader<'a> {
    /// The read position lies within the payload.
    pub closed spec fn wf(&self) -> bool {
        self.pos <= self.bits@.len()
    }

    /// Starts at the first bit.
    pub fn new(bits: &'a [bool]) -> (r: Self)
        ensures
            r.wf(),
            r@ == bits@,
    {
        let r = BitReader { bits, pos: 0 };
        assert(r@ =~= bits@);
        r
    }

    /// The next `n` bits as a number (the low 64 of them if there are more);
    /// `None`, and nothing is read, if fewer are left.
    pub fn uint(&mut self, n: usize) -> (r: Option<u64>)
        requires
            old(self).wf(),
        ensures
            final(self).wf(),
            r is Some <==> n <= old(self)@.len(),
            r matches Some(v) ==> {
                &&& v == value(old(self)@.take(n as int)) % pow2(64)
                &&& n <= 64 ==> v == value(old(self)@.take(n as int))
                &&& final(self)@ == old(self)@.skip(n as int)
            },
            r is None ==> final(self)@ == old(self)@,
    {
        let total: usize = self.bits.len();
        if n > total - self.pos {
            return None;
        }
        let mut acc: u64 = 0;
        let mut i: usize = 0;
        let ghost rest = self@;
        proof {
            lemma2_to64();
            assert(rest.take(0) =~= Seq::<bool>::empty());
        }
        while i < n
            invariant
                i <= n <= rest.len(),
                self.pos + n <= total == self.bits@.len(),
                rest == self.bits@.skip(self.pos as int),
                acc == value(rest.take(i as int)) % pow2(64),
                pow2(64) == 0x1_0000_0000_0000_0000,
            decreases n - i,
        {
            let b: u64 = if self.bits[self.pos + i] {
                1
            } else {
                0
            };
            proof {
                let so_far = value(rest.take(i as int)) as int;
                let m = 0x1_0000_0000_0000_0000int;
                assert(rest.take(i + 1).drop_last() =~= rest.take(i as int));
                assert((acc << 1 | b) == (2 * acc + b) % 0x1_0000_0000_0000_0000) by (bit_vector)
                    requires
                        b <= 1,
                ;
                lemma_fundamental_div_mod(so_far, m);
                lemma_mod_multiples_vanish(2 * (so_far / m), 2 * acc + b, m);
                assert(m * (2 * (so_far / m)) == 2 * (m * (so_far / m))) by (nonlinear_arith);
            }
            acc = acc << 1 | b;
            i += 1;
        }
        proof {
            lemma_value_bound(rest.take(n as int));
            if n <= 64 {
                if n < 64 {
                    lemma_pow2_strictly_increases(n as nat, 64);
                }
                lemma_small_mod(value(rest.take(n as int)), pow2(64));
            }
        }
        self.pos += n;
        assert(self@ =~= rest.skip(n as int));
        Some(acc)
    }

    /// The next `n` bits in two's complement.
    pub fn signed(&mut self, n: usize) -> (r: Option<i64>)
        requires
            old(self).wf(),
            1 <= n,
            n <= 64 || n > old(self)@.len(),
        ensures
            final(self).wf(),
            r is Some <==> n <= old(self)@.len(),
            r matches Some(v) ==> {
                &&& v == signed_value(old(self)@.take(n as int))
                &&& final(self)@ == old(self)@.skip(n as int)
            },
            r is None ==> final(self)@ == old(self)@,
    {
        let ghost rest = self@;
        match self.uint(n) {
            None => None,
            Some(v) => {
                proof {
                    let bits = rest.take(n as int);
                    lemma_first_bit(bits);
                    lemma_value_bound(bits);
                    lemma_pow2_unfold(n as nat);
                    lemma2_to64();
                    lemma_u64_pow2_no_overflow((n - 1) as nat);
                    lemma_u64_shl_is_mul(1, (n - 1) as u64);
                    if n < 64 {
                        lemma_pow2_strictly_increases(n as nat, 64);
                    }
                }
                let half: u64 = 1u64 << (n - 1);
                if v >= half {
                    Some((v as i128 - 2 * half as i128) as i64)
                } else {
                    Some(v as i64)
                }
            },
        }
    }

    /// The next `chars` characters without the fill at their end. Whole
    /// characters are consumed even if too few are left.
    pub fn text(&mut self, chars: usize) -> (r: Option<String>)
        requires
            old(self).wf(),
        ensures
            final(self).wf(),
            r is Some <==> 6 * chars <= old(self)@.len(),
            r matches Some(s) ==> {
                &&& s@ == trim_fill(text_chars(old(self)@, chars as nat))
                &&& final(self)@ == old(self)@.skip(6 * chars)
            },
            r is None ==> final(self)@ == old(self)@.skip(6 * (old(self)@.len() as int / 6)),
    {
        let mut letters: Vec<char> = Vec::new();
        let mut i: usize = 0;
        let ghost rest = self@;
        assert(rest.skip(0) =~= rest);
        while i < chars
            invariant
                self.wf(),
                rest == old(self)@,
                i <= chars,
                6 * i <= rest.len(),
                self@ == rest.skip(6 * i),
                letters@ =~= text_chars(rest, i as nat),
            decreases chars - i,
        {
            match self.uint(6) {
                None => {
                    return None;
                },
                Some(v) => {
                    assert(rest.skip(6 * i).take(6) =~= rest.subrange(6 * i, 6 * i + 6));
                    assert(rest.skip(6 * i).skip(6) =~= rest.skip(6 * (i + 1)));
                    proof {
                        lemma_value_bound(rest.subrange(6 * i, 6 * i + 6));
                        lemma2_to64();
                    }
                    let code: u8 = v as u8;
                    letters.push(
                        if code < 32 {
                            (code + 64) as char
                        } else {
                            code as char
                        },
                    );
                    i += 1;
                },
            }
        }
        let ghost whole = letters@;
        let mut len: usize = letters.len();
        assert(whole.take(len as int) =~= whole);
        while len > 0 && (letters[len - 1] == '@' || letters[len - 1] == ' ')
            invariant
                len <= whole.len(),
                letters@ == whole,
                trim_fill(whole.take(len as int)) == trim_fill(whole),
            decreases len,
        {
            assert(whole.take(len as int).drop_last() =~= whole.take(len - 1));
            len -= 1;
        }
        letters.truncate(len);
        Some(text::string(&letters))
    }
}

/// `bits` filled up with zeros to whole groups of `group` bits.
pub open spec fn padded(bits: Seq<bool>, group: nat) -> Seq<bool>
    recommends
        group > 0,
{
    Seq::new(
        (group * ((bits.len() + group - 1) as nat / group)) as nat,
        |i: int| i < bits.len() && bits[i],
    )
}

/// Packs bits into bytes, most significant bit first, filled up with zeros.
pub fn to_bytes(bits: &[bool]) -> (bytes: Vec<u8>)
    ensures
        bytes@.len() == padded(bits@, 8).len() / 8,
        forall|k: int|
            0 <= k < bytes@.len() ==> #[trigger] bytes@[k] == value(
                padded(bits@, 8).subrange(8 * k, 8 * k + 8),
            ),
{
    let mut bytes: Vec<u8> = Vec::new();
    let ghost pad = padded(bits@, 8);
    let mut pos: usize = 0;
    while pos < bits.len()
        invariant
            pad == padded(bits@, 8),
            pos <= bits@.len(),
            pos == bits@.len() || pos == 8 * bytes@.len(),
            bytes@.len() == (pos + 7) as int / 8,
            forall|k: int|
                0 <= k < bytes@.len() ==> #[trigger] bytes@[k] == value(
                    pad.subrange(8 * k, 8 * k + 8),
                ),
        decreases bits@.len() - pos,
    {
        let total: usize = bits.len();
        let left: usize = total - pos;
        let mut byte: u8 = 0;
        let mut j: usize = 0;
        let ghost group = pad.subrange(pos as int, pos + 8);
        proof {
            assert(group.take(0) =~= Seq::<bool>::empty());
            lemma2_to64();
        }
        while j < 8
            invariant
                j <= 8,
                pos < bits@.len(),
                left == total - pos,
                total == bits@.len(),
                pad == padded(bits@, 8),
                pos + 8 <= pad.len(),
                group == pad.subrange(pos as int, pos + 8),
                byte == value(group.take(j as int)),
                byte < pow2(j as nat),
            decreases 8 - j,
        {
            let b: u8 = if j < left && bits[pos + j] {
                1
            } else {
                0
            };
            assert(group.take(j + 1).drop_last() =~= group.take(j as int));
            proof {
                lemma2_to64();
                lemma_value_bound(group.take(j + 1));
                if j < 7 {
                    lemma_pow2_strictly_increases(j as nat, 7);
                }
            }
            byte = 2 * byte + b;
            j += 1;
        }
        assert(group.take(8) =~= group);
        bytes.push(byte);
        if left < 8 {
            pos = bits.len();
        } else {
            pos += 8;
        }
    }
    bytes
}

} // verus!
