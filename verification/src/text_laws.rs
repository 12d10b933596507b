//! What written numbers and divided texts say.

use crate::text;
use vstd::prelude::*;

verus! {

/// Every character is a decimal digit.
pub open spec fn is_numeral(s: Seq<char>) -> bool {
    forall|i: int| 0 <= i < s.len() ==> 48 <= (#[trigger] s[i]) as u32 <= 57
}

/// The number that decimal digits write, the first one counting most.
pub open spec fn reading(s: Seq<char>) -> int
    decreases s.len(),
{
    if s.len() == 0 {
        0
    } else {
        10 * reading(s.drop_last()) + (s.last() as u32 - 48)
    }
}

/// A written number reads as itself, and has no digit too many: a zero in front
/// only if it is zero.
pub proof fn law_decimal_reads_back(n: nat)
    ensures
        text::decimal(n).len() > 0,
        is_numeral(text::decimal(n)),
        reading(text::decimal(n)) == n,
        text::decimal(n)[0] == '0' ==> text::decimal(n).len() == 1,
    decreases n,
{
    let s = text::decimal(n);
    let last = text::digit((n % 10) as int);
    assert(last as u32 == 48 + n % 10);
    if n >= 10 {
        let t = text::decimal(n / 10);
        law_decimal_reads_back(n / 10);
        assert(s.drop_last() =~= t);
        assert forall|i: int| 0 <= i < s.len() implies 48 <= (#[trigger] s[i]) as u32 <= 57 by {
            if i < t.len() {
                assert(s[i] == t[i]);
            }
        }
        if s[0] == '0' {
            assert(t.len() == 1);
            assert(t.drop_last().len() == 0);
            assert(reading(t.drop_last()) == 0);
            assert(reading(t) == 0);
        }
    } else {
        assert(s.drop_last().len() == 0);
        assert(reading(s.drop_last()) == 0);
    }
}

/// Zeros in front fill a number up to its width and do not change it.
pub proof fn law_padding_keeps_the_number(n: nat, width: nat)
    ensures
        is_numeral(text::zero_padded(n, width)),
        reading(text::zero_padded(n, width)) == n,
        text::zero_padded(n, width).len() == if text::decimal(n).len() < width {
            width
        } else {
            text::decimal(n).len()
        },
{
    law_decimal_reads_back(n);
    let d = text::decimal(n);
    if d.len() < width {
        let zeros = Seq::new((width - d.len()) as nat, |i: int| '0');
        lemma_leading_zeros(zeros, d);
        let s = zeros + d;
        assert forall|i: int| 0 <= i < s.len() implies 48 <= (#[trigger] s[i]) as u32 <= 57 by {
            if i >= zeros.len() {
                assert(s[i] == d[i - zeros.len()]);
            }
        }
    }
}

proof fn lemma_leading_zeros(zeros: Seq<char>, d: Seq<char>)
    requires
        forall|i: int| 0 <= i < zeros.len() ==> #[trigger] zeros[i] == '0',
    ensures
        reading(zeros + d) == reading(d),
    decreases zeros.len() + d.len(),
{
    let s = zeros + d;
    if d.len() > 0 {
        assert(s.drop_last() =~= zeros + d.drop_last());
        lemma_leading_zeros(zeros, d.drop_last());
    } else if zeros.len() > 0 {
        let less = zeros.drop_last();
        assert(s.drop_last() =~= less + d);
        lemma_leading_zeros(less, d);
    } else {
        assert(s =~= d);
    }
}

/// A negative number has a minus sign in front of what it is without it.
pub proof fn law_sign_is_in_front(n: int)
    ensures
        n >= 0 ==> reading(text::signed_decimal(n)) == n,
        n < 0 ==> text::signed_decimal(n)[0] == '-' && reading(
            text::signed_decimal(n).drop_first(),
        ) == -n,
{
    if n < 0 {
        law_decimal_reads_back((-n) as nat);
        assert(text::signed_decimal(n).drop_first() =~= text::decimal((-n) as nat));
    } else {
        law_decimal_reads_back(n as nat);
    }
}

/// `c` is the hexadecimal digit of `v`, as a capital letter from ten on.
pub open spec fn is_hex(c: char, v: int) -> bool {
    (0 <= v < 10 && c as u32 == v + '0' as u32) || (10 <= v < 16 && c as u32 == v - 10 + 'A' as u32)
}

/// A byte is written as two hexadecimal digits, the first one counting sixteen.
pub proof fn law_byte_is_two_digits(b: u8)
    ensures
        text::hex_byte(b).len() == 2,
        exists|high: int, low: int|
            b == 16 * high + low && #[trigger] is_hex(text::hex_byte(b)[0], high)
                && #[trigger] is_hex(text::hex_byte(b)[1], low),
{
    let high = b as int / 16;
    let low = b as int % 16;
    assert(is_hex(text::hex_byte(b)[0], high));
    assert(is_hex(text::hex_byte(b)[1], low));
}

/// A place that was found is the first one, and where there is none, the end is
/// given.
pub proof fn law_first_place_is_found(s: Seq<char>, c: char)
    ensures
        text::find(s, c) <= s.len(),
        text::find(s, c) < s.len() ==> s[text::find(s, c) as int] == c,
        forall|i: int| 0 <= i < text::find(s, c) ==> #[trigger] s[i] != c,
    decreases s.len(),
{
    if s.len() > 0 && s[0] != c {
        let t = s.drop_first();
        law_first_place_is_found(t, c);
        assert forall|i: int| 0 <= i < text::find(s, c) implies #[trigger] s[i] != c by {
            if i > 0 {
                assert(s[i] == t[i - 1]);
            }
        }
    }
}

/// A divided text holds no separator any more, and joined again it is the text.
pub proof fn law_parts_join_to_the_text(s: Seq<char>, c: char)
    ensures
        text::split(s, c).len() > 0,
        forall|i: int| 0 <= i < text::split(s, c).len() ==> !(#[trigger] text::split(s, c)[i]).contains(c),
        text::join(text::split(s, c), c) == s,
    decreases s.len(),
{
    let i = text::find(s, c) as int;
    let parts = text::split(s, c);
    law_first_place_is_found(s, c);
    if i < s.len() {
        let head = s.take(i);
        let tail = s.skip(i + 1);
        let rest = text::split(tail, c);
        law_parts_join_to_the_text(tail, c);
        assert(parts.drop_first() =~= rest);
        assert(parts[0] == head);
        assert forall|k: int| 0 <= k < parts.len() implies !(#[trigger] parts[k]).contains(c) by {
            if k > 0 {
                assert(parts[k] == rest[k - 1]);
            } else if head.contains(c) {
                let j = choose|j: int| 0 <= j < head.len() && head[j] == c;
                assert(s[j] == c);
            }
        }
        assert(s =~= head + seq![c] + tail);
    } else {
        assert(parts[0] == s);
        if s.contains(c) {
            let j = choose|j: int| 0 <= j < s.len() && s[j] == c;
            assert(s[j] != c);
        }
    }
}

} // verus!
