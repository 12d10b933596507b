//! Characters and numbers as text.

use vstd::prelude::*;

verus! {

/// `String::push` appends one character.
pub assume_specification[ String::push ](s: &mut String, c: char)
    ensures
        final(s)@ == old(s)@.push(c),
;

/// The characters of a string.
pub fn chars(s: &str) -> (r: Vec<char>)
    ensures
        r@ == s@,
{
    let mut r: Vec<char> = Vec::new();
    for c in it: s.chars()
        invariant
            it.seq() == s@,
            r@ == s@.take(it.index() as int),
    {
        r.push(c);
        assert(s@.take(it.index() + 1) =~= s@.take(it.index() as int).push(c));
    }
    assert(s@.take(s@.len() as int) =~= s@);
    r
}

/// The string made of these characters.
pub fn string(chars: &[char]) -> (r: String)
    ensures
        r@ == chars@,
{
    let mut r = String::new();
    let mut i: usize = 0;
    while i < chars.len()
        invariant
            i <= chars@.len(),
            r@ == chars@.take(i as int),
        decreases chars@.len() - i,
    {
        r.push(chars[i]);
        i += 1;
        assert(chars@.take(i as int) =~= chars@.take(i - 1).push(chars@[i - 1]));
    }
    assert(chars@.take(i as int) =~= chars@);
    r
}

/// Appends characters.
pub fn push_chars(out: &mut String, chars: &[char])
    ensures
        final(out)@ == old(out)@ + chars@,
{
    let mut i: usize = 0;
    let ghost before = out@;
    assert(before + chars@.take(0) =~= before);
    while i < chars.len()
        invariant
            i <= chars@.len(),
            out@ == before + chars@.take(i as int),
        decreases chars@.len() - i,
    {
        out.push(chars[i]);
        i += 1;
        assert(before + chars@.take(i as int) =~= (before + chars@.take(i - 1)).push(
            chars@[i - 1],
        ));
    }
    assert(chars@.take(i as int) =~= chars@);
}

/// Appends a string.
pub fn push_str(out: &mut String, s: &str)
    ensures
        final(out)@ == old(out)@ + s@,
{
    let letters: Vec<char> = chars(s);
    push_chars(out, &letters);
}

/// A copy of a string.
pub fn copied(s: &str) -> (r: String)
    ensures
        r@ == s@,
{
    let letters: Vec<char> = chars(s);
    string(&letters)
}

/// A digit below ten.
pub open spec fn digit(d: int) -> char {
    (48 + d) as char
}

/// A number in decimal notation.
pub open spec fn decimal(n: nat) -> Seq<char>
    decreases n,
{
    if n < 10 {
        seq![digit(n as int)]
    } else {
        decimal(n / 10).push(digit((n % 10) as int))
    }
}

/// An integer in decimal notation, with a minus sign if it is negative.
pub open spec fn signed_decimal(n: int) -> Seq<char> {
    if n < 0 {
        seq!['-'] + decimal((-n) as nat)
    } else {
        decimal(n as nat)
    }
}

/// Appends a number in decimal notation.
pub fn push_decimal(out: &mut String, n: u64)
    ensures
        final(out)@ == old(out)@ + decimal(n as nat),
    decreases n,
{
    let ghost before = out@;
    if n >= 10 {
        push_decimal(out, n / 10);
    }
    out.push((48 + (n % 10) as u8) as char);
    assert(out@ =~= before + decimal(n as nat));
}

/// Appends an integer in decimal notation.
pub fn push_signed(out: &mut String, n: i64)
    ensures
        final(out)@ == old(out)@ + signed_decimal(n as int),
{
    let ghost before = out@;
    if n < 0 {
        out.push('-');
        let size: u64 = if n == i64::MIN {
            0x8000_0000_0000_0000
        } else {
            (-n) as u64
        };
        push_decimal(out, size);
        assert(out@ =~= before + signed_decimal(n as int));
    } else {
        push_decimal(out, n as u64);
    }
}

/// A number in decimal notation, with zeros in front up to `width` digits.
pub open spec fn zero_padded(n: nat, width: nat) -> Seq<char> {
    let d = decimal(n);
    if d.len() < width {
        Seq::new((width - d.len()) as nat, |i: int| '0') + d
    } else {
        d
    }
}

/// Appends a number in decimal notation with at least `width` digits.
pub fn push_padded(out: &mut String, n: u64, width: usize)
    ensures
        final(out)@ == old(out)@ + zero_padded(n as nat, width as nat),
{
    let ghost before = out@;
    let mut d = String::new();
    push_decimal(&mut d, n);
    let digits: Vec<char> = chars(&d);
    assert(digits@ =~= decimal(n as nat));
    let mut k: usize = digits.len();
    while k < width
        invariant
            digits@.len() <= k,
            k <= width || k == digits@.len(),
            out@ =~= before + Seq::new((k - digits@.len()) as nat, |i: int| '0'),
        decreases width - k,
    {
        out.push('0');
        k += 1;
    }
    push_chars(out, &digits);
    assert(out@ =~= before + zero_padded(n as nat, width as nat));
}

/// Whether two strings are the same.
pub fn same(a: &str, b: &str) -> (r: bool)
    ensures
        r == (a@ == b@),
{
    let x: Vec<char> = chars(a);
    let y: Vec<char> = chars(b);
    if x.len() != y.len() {
        return false;
    }
    let mut i: usize = 0;
    while i < x.len()
        invariant
            i <= x@.len() == y@.len(),
            x@ == a@,
            y@ == b@,
            forall|k: int| 0 <= k < i ==> x@[k] == y@[k],
        decreases x@.len() - i,
    {
        if x[i] != y[i] {
            return false;
        }
        i += 1;
    }
    assert(a@ =~= b@);
    true
}

/// A hexadecimal digit below sixteen, upper case.
pub open spec fn hex_digit(d: int) -> char {
    if d < 10 {
        (48 + d) as char
    } else {
        (55 + d) as char
    }
}

/// A byte as two hexadecimal digits.
pub open spec fn hex_byte(b: u8) -> Seq<char> {
    seq![hex_digit(b as int / 16), hex_digit(b as int % 16)]
}

/// Appends a byte as two hexadecimal digits.
pub fn push_hex(out: &mut String, b: u8)
    ensures
        final(out)@ == old(out)@ + hex_byte(b),
{
    let ghost before = out@;
    let high: u8 = b / 16;
    let low: u8 = b % 16;
    out.push(
        if high < 10 {
            (48 + high) as char
        } else {
            (55 + high) as char
        },
    );
    out.push(
        if low < 10 {
            (48 + low) as char
        } else {
            (55 + low) as char
        },
    );
    assert(out@ =~= before + hex_byte(b));
}

/// Place of the first `c` in `s`, or the length of `s` if there is none.
pub open spec fn find(s: Seq<char>, c: char) -> nat
    decreases s.len(),
{
    if s.len() == 0 || s[0] == c {
        0
    } else {
        1 + find(s.drop_first(), c)
    }
}

/// Place of the first `c` from `from` on.
pub fn find_from(s: &[char], c: char, from: usize) -> (r: usize)
    requires
        from <= s@.len(),
    ensures
        r == from + find(s@.skip(from as int), c),
        from <= r <= s@.len(),
{
    let mut i: usize = from;
    while i < s.len() && s[i] != c
        invariant
            from <= i <= s@.len(),
            from + find(s@.skip(from as int), c) == i + find(s@.skip(i as int), c),
        decreases s@.len() - i,
    {
        assert(s@.skip(i as int).drop_first() =~= s@.skip(i + 1));
        i += 1;
    }
    i
}

/// The parts of `s` between the separators `c`.
pub open spec fn split(s: Seq<char>, c: char) -> Seq<Seq<char>>
    decreases s.len(),
{
    let i = find(s, c);
    if i >= s.len() {
        seq![s]
    } else {
        seq![s.take(i as int)] + split(s.skip(i as int + 1), c)
    }
}

/// The parts with the separator `c` between them.
pub open spec fn join(parts: Seq<Seq<char>>, c: char) -> Seq<char>
    decreases parts.len(),
{
    if parts.len() == 0 {
        Seq::empty()
    } else if parts.len() == 1 {
        parts[0]
    } else {
        parts[0] + seq![c] + join(parts.drop_first(), c)
    }
}

/// Seven joined parts, written out.
pub proof fn lemma_join_seven(p: Seq<Seq<char>>, c: char)
    requires
        p.len() == 7,
    ensures
        join(p, c) == p[0] + seq![c] + (p[1] + seq![c] + (p[2] + seq![c] + (p[3] + seq![c] + (p[4]
            + seq![c] + (p[5] + seq![c] + p[6]))))),
{
    reveal_with_fuel(join, 8);
    let p1 = p.drop_first();
    let p2 = p1.drop_first();
    let p3 = p2.drop_first();
    let p4 = p3.drop_first();
    let p5 = p4.drop_first();
    assert(p5.drop_first()[0] == p[6]);
    assert(p5[0] == p[5]);
    assert(p4[0] == p[4]);
    assert(p3[0] == p[3]);
    assert(p2[0] == p[2]);
    assert(p1[0] == p[1]);
}

/// Without `c` nothing is found.
pub proof fn lemma_find_none(s: Seq<char>, c: char)
    requires
        !s.contains(c),
    ensures
        find(s, c) == s.len(),
    decreases s.len(),
{
    if s.len() > 0 {
        assert(s.contains(s[0]));
        assert(forall|x: char| s.drop_first().contains(x) ==> s.contains(x)) by {
            assert forall|x: char| s.drop_first().contains(x) implies s.contains(x) by {
                let i = choose|i: int| 0 <= i < s.len() - 1 && s.drop_first()[i] == x;
                assert(s[i + 1] == x);
            }
        }
        lemma_find_none(s.drop_first(), c);
    }
}

/// The first `c` follows what is free of it.
pub proof fn lemma_find_after(a: Seq<char>, b: Seq<char>, c: char)
    requires
        !a.contains(c),
    ensures
        find(a + seq![c] + b, c) == a.len(),
    decreases a.len(),
{
    let s = a + seq![c] + b;
    if a.len() > 0 {
        let rest = a.drop_first();
        assert(a.contains(a[0]));
        assert(!rest.contains(c)) by {
            if rest.contains(c) {
                let i = choose|i: int| 0 <= i < rest.len() && rest[i] == c;
                assert(a[i + 1] == c);
            }
        }
        lemma_find_after(rest, b, c);
        assert(s.drop_first() =~= rest + seq![c] + b);
    }
}

/// Parts that are free of the separator come apart as they were joined.
pub proof fn lemma_split_join(parts: Seq<Seq<char>>, c: char)
    requires
        parts.len() > 0,
        forall|i: int| 0 <= i < parts.len() ==> !(#[trigger] parts[i]).contains(c),
    ensures
        split(join(parts, c), c) == parts,
    decreases parts.len(),
{
    assert(!parts[0].contains(c));
    if parts.len() == 1 {
        lemma_find_none(parts[0], c);
        assert(split(join(parts, c), c) =~= parts);
    } else {
        let rest = parts.drop_first();
        let tail = join(rest, c);
        let s = parts[0] + seq![c] + tail;
        lemma_find_after(parts[0], tail, c);
        lemma_split_join(rest, c);
        assert(s.take(parts[0].len() as int) =~= parts[0]);
        assert(s.skip(parts[0].len() as int + 1) =~= tail);
        assert(seq![parts[0]] + rest =~= parts);
    }
}

/// The parts of `s` between the separators `c`.
pub fn split_at(s: &[char], c: char) -> (r: Vec<Vec<char>>)
    ensures
        r@.len() == split(s@, c).len(),
        forall|k: int| 0 <= k < r@.len() ==> (#[trigger] r@[k])@ == split(s@, c)[k],
{
    let mut r: Vec<Vec<char>> = Vec::new();
    let mut from: usize = 0;
    let ghost whole = split(s@, c);
    assert(s@.skip(0) =~= s@);
    loop
        invariant
            from <= s@.len(),
            whole == split(s@, c),
            whole.len() == r@.len() + split(s@.skip(from as int), c).len(),
            forall|k: int| 0 <= k < r@.len() ==> (#[trigger] r@[k])@ == whole[k],
            forall|k: int|
                0 <= k < split(s@.skip(from as int), c).len() ==> whole[r@.len() + k]
                    == #[trigger] split(s@.skip(from as int), c)[k],
        decreases s@.len() - from,
    {
        let end: usize = find_from(s, c, from);
        let part: Vec<char> = copy(s, from, end);
        let ghost rest = s@.skip(from as int);
        let ghost had = r@;
        assert(part@ =~= rest.take(end - from));
        assert(whole[r@.len() as int] == split(rest, c)[0]);
        r.push(part);
        if end == s.len() {
            assert(part@ =~= rest);
            return r;
        }
        assert(rest.skip(end - from + 1) =~= s@.skip(end + 1));
        assert forall|k: int| 0 <= k < split(s@.skip(end + 1), c).len() implies whole[r@.len() + k]
            == #[trigger] split(s@.skip(end + 1), c)[k] by {
            assert(split(rest, c)[k + 1] == split(s@.skip(end + 1), c)[k]);
            assert(whole[had.len() + (k + 1)] == split(rest, c)[k + 1]);
        }
        from = end + 1;
    }
}

/// The views of strings.
pub open spec fn views(strings: Seq<String>) -> Seq<Seq<char>> {
    strings.map_values(|s: String| s@)
}

/// The strings with the separator `c` between them.
pub fn joined(parts: &[String], c: char) -> (r: String)
    ensures
        r@ == join(views(parts@), c),
{
    let ghost v = views(parts@);
    let mut r = String::new();
    let mut i: usize = 0;
    assert(v.skip(0) =~= v);
    while i < parts.len()
        invariant
            i <= parts@.len() == v.len(),
            v == views(parts@),
            join(v, c) == r@ + join(v.skip(i as int), c),
        decreases parts@.len() - i,
    {
        let ghost before = r@;
        let ghost rest = v.skip(i as int);
        assert(rest[0] == parts@[i as int]@);
        assert(rest.drop_first() =~= v.skip(i + 1));
        push_str(&mut r, &parts[i]);
        i += 1;
        if i < parts.len() {
            r.push(c);
            assert(r@ =~= before + (rest[0] + seq![c]));
            assert(before + (rest[0] + seq![c] + join(rest.drop_first(), c)) =~= r@ + join(
                rest.drop_first(),
                c,
            ));
        } else {
            assert(rest.len() == 1);
            assert(v.skip(i as int) =~= Seq::<Seq<char>>::empty());
            assert(r@ + join(v.skip(i as int), c) =~= r@);
        }
    }
    assert(v.skip(i as int) =~= Seq::<Seq<char>>::empty());
    assert(r@ + join(v.skip(i as int), c) =~= r@);
    r
}

/// `s` without a carriage return at its end.
pub open spec fn without_return(s: Seq<char>) -> Seq<char> {
    if s.len() > 0 && s.last() == '\r' {
        s.drop_last()
    } else {
        s
    }
}

/// The lines of a text: each ends with a line feed, perhaps with a carriage
/// return in front of it; behind the last line feed there may be one more.
pub open spec fn lines_of(s: Seq<char>) -> Seq<Seq<char>> {
    let parts = split(s, '\n');
    let ended = parts.drop_last().map_values(|l: Seq<char>| without_return(l));
    if parts.last().len() == 0 {
        ended
    } else {
        ended.push(parts.last())
    }
}

proof fn lemma_split_len(s: Seq<char>, c: char)
    ensures
        split(s, c).len() > 0,
    decreases s.len(),
{
}

/// The lines of a text.
pub fn lines(s: &str) -> (r: Vec<String>)
    ensures
        views(r@) == lines_of(s@),
{
    let letters: Vec<char> = chars(s);
    let parts: Vec<Vec<char>> = split_at(&letters, '\n');
    let ghost p = split(s@, '\n');
    proof {
        lemma_split_len(s@, '\n');
    }
    let n: usize = parts.len();
    let mut r: Vec<String> = Vec::new();
    let mut i: usize = 0;
    while i < n - 1
        invariant
            n == parts@.len() == p.len(),
            0 <= i < n,
            forall|k: int| 0 <= k < n ==> (#[trigger] parts@[k])@ == p[k],
            r@.len() == i,
            forall|k: int| 0 <= k < i ==> (#[trigger] r@[k])@ == without_return(p[k]),
        decreases n - i,
    {
        assert(parts@[i as int]@ == p[i as int]);
        let size: usize = parts[i].len();
        let end: usize = if size > 0 && parts[i][size - 1] == '\r' {
            size - 1
        } else {
            size
        };
        let line: Vec<char> = copy(&parts[i], 0, end);
        assert(line@ =~= without_return(p[i as int]));
        r.push(string(&line));
        i += 1;
    }
    let ghost ended = views(r@);
    assert(ended =~= p.drop_last().map_values(|l: Seq<char>| without_return(l)));
    assert(parts@[n - 1]@ == p.last());
    if parts[n - 1].len() > 0 {
        r.push(string(&parts[n - 1]));
        assert(views(r@) =~= ended.push(p.last()));
    }
    r
}

/// Lines that hold no line break come back from the text that joins them.
pub proof fn law_lines_round_trip(l: Seq<Seq<char>>)
    requires
        l.len() > 0,
        forall|i: int| 0 <= i < l.len() ==> !(#[trigger] l[i]).contains('\n'),
        forall|i: int|
            0 <= i < l.len() ==> (#[trigger] l[i]).len() > 0 && l[i].last() != '\r',
    ensures
        lines_of(join(l, '\n')) == l,
{
    lemma_split_join(l, '\n');
    let ended = l.drop_last().map_values(|x: Seq<char>| without_return(x));
    assert forall|i: int| 0 <= i < ended.len() implies #[trigger] ended[i] == l[i] by {
        assert(l[i].last() != '\r');
    }
    assert(l.last().len() > 0);
    assert(ended.push(l.last()) =~= l);
}

/// The characters from `from` up to `end`.
pub fn copy(s: &[char], from: usize, end: usize) -> (r: Vec<char>)
    requires
        from <= end <= s@.len(),
    ensures
        r@ == s@.subrange(from as int, end as int),
{
    let mut r: Vec<char> = Vec::new();
    let mut i: usize = from;
    while i < end
        invariant
            from <= i <= end <= s@.len(),
            r@ =~= s@.subrange(from as int, i as int),
        decreases end - i,
    {
        r.push(s[i]);
        i += 1;
    }
    r
}

/// White space as Unicode defines it.
pub open spec fn is_space(c: char) -> bool {
    ||| '\u{9}' <= c <= '\u{d}'
    ||| c == ' '
    ||| c == '\u{85}'
    ||| c == '\u{a0}'
    ||| c == '\u{1680}'
    ||| '\u{2000}' <= c <= '\u{200a}'
    ||| c == '\u{2028}'
    ||| c == '\u{2029}'
    ||| c == '\u{202f}'
    ||| c == '\u{205f}'
    ||| c == '\u{3000}'
}

fn space(c: char) -> (r: bool)
    ensures
        r == is_space(c),
{
    ('\u{9}' <= c && c <= '\u{d}') || c == ' ' || c == '\u{85}' || c == '\u{a0}' || c
        == '\u{1680}' || ('\u{2000}' <= c && c <= '\u{200a}') || c == '\u{2028}' || c
        == '\u{2029}' || c == '\u{202f}' || c == '\u{205f}' || c == '\u{3000}'
}

/// `s` without white space in front.
pub open spec fn trim_start(s: Seq<char>) -> Seq<char>
    decreases s.len(),
{
    if s.len() > 0 && is_space(s[0]) {
        trim_start(s.drop_first())
    } else {
        s
    }
}

/// `s` without white space at its end.
pub open spec fn trim_end(s: Seq<char>) -> Seq<char>
    decreases s.len(),
{
    if s.len() > 0 && is_space(s.last()) {
        trim_end(s.drop_last())
    } else {
        s
    }
}

/// The characters without white space at either end.
pub fn trim(s: &[char]) -> (r: Vec<char>)
    ensures
        r@ == trim_end(trim_start(s@)),
{
    let mut from: usize = 0;
    assert(s@.skip(0) =~= s@);
    while from < s.len() && space(s[from])
        invariant
            from <= s@.len(),
            trim_start(s@.skip(from as int)) == trim_start(s@),
        decreases s@.len() - from,
    {
        assert(s@.skip(from as int).drop_first() =~= s@.skip(from + 1));
        from += 1;
    }
    let ghost kept = s@.skip(from as int);
    assert(kept == trim_start(s@));
    let mut end: usize = s.len();
    assert(s@.subrange(from as int, end as int) =~= kept);
    while end > from && space(s[end - 1])
        invariant
            from <= end <= s@.len(),
            trim_end(s@.subrange(from as int, end as int)) == trim_end(kept),
        decreases end,
    {
        assert(s@.subrange(from as int, end as int).drop_last() =~= s@.subrange(
            from as int,
            end - 1,
        ));
        end -= 1;
    }
    copy(s, from, end)
}

/// Value of a digit in a radix up to sixteen.
pub open spec fn digit_value(c: char, radix: nat) -> Option<nat> {
    let v = if '0' <= c <= '9' {
        (c as int - 48) as nat
    } else if 'a' <= c <= 'z' {
        (c as int - 87) as nat
    } else if 'A' <= c <= 'Z' {
        (c as int - 55) as nat
    } else {
        99
    };
    if v < radix {
        Some(v)
    } else {
        None
    }
}

/// Every character is a digit.
pub open spec fn all_digits(s: Seq<char>, radix: nat) -> bool {
    forall|i: int| 0 <= i < s.len() ==> #[trigger] digit_value(s[i], radix) is Some
}

/// The number that the digits write.
pub open spec fn number(s: Seq<char>, radix: nat) -> nat
    decreases s.len(),
{
    if s.len() == 0 {
        0
    } else {
        number(s.drop_last(), radix) * radix + digit_value(s.last(), radix).unwrap_or(0)
    }
}

/// A byte written with an optional plus sign and digits, at least one.
pub open spec fn byte_number(s: Seq<char>, radix: nat) -> Option<u8> {
    let digits = if s.len() > 0 && s[0] == '+' {
        s.drop_first()
    } else {
        s
    };
    if digits.len() > 0 && all_digits(digits, radix) && number(digits, radix) <= 255 {
        Some(number(digits, radix) as u8)
    } else {
        None
    }
}

proof fn lemma_number_grows(s: Seq<char>, k: int, radix: nat)
    requires
        0 <= k <= s.len(),
        radix >= 1,
    ensures
        number(s.take(k), radix) <= number(s, radix),
    decreases s.len(),
{
    if k == s.len() {
        assert(s.take(k) =~= s);
    } else {
        lemma_number_grows(s.drop_last(), k, radix);
        assert(s.drop_last().take(k) =~= s.take(k));
        let n = number(s.drop_last(), radix);
        assert(n <= n * radix) by (nonlinear_arith)
            requires
                radix >= 1,
        ;
    }
}

/// Reads a byte written in a radix up to sixteen.
pub fn parse_byte(s: &[char], radix: u8) -> (r: Option<u8>)
    requires
        1 <= radix <= 16,
    ensures
        r == byte_number(s@, radix as nat),
{
    let start: usize = if s.len() > 0 && s[0] == '+' {
        1
    } else {
        0
    };
    let ghost digits = s@.skip(start as int);
    proof {
        if start == 0 {
            assert(digits =~= s@);
        } else {
            assert(digits =~= s@.drop_first());
        }
    }
    if start == s.len() {
        return None;
    }
    let mut acc: u16 = 0;
    let mut i: usize = start;
    assert(digits.take(0) =~= Seq::<char>::empty());
    while i < s.len()
        invariant
            1 <= radix <= 16,
            start <= i <= s@.len(),
            start < s@.len(),
            digits == s@.skip(start as int),
            digits == (if s@.len() > 0 && s@[0] == '+' {
                s@.drop_first()
            } else {
                s@
            }),
            acc <= 255,
            acc == number(digits.take(i - start), radix as nat),
            forall|k: int| 0 <= k < i - start ==> #[trigger] digit_value(digits[k], radix as nat) is Some,
        decreases s@.len() - i,
    {
        let c: char = s[i];
        assert(c == digits[i - start]);
        let v: u16 = if '0' <= c && c <= '9' {
            c as u16 - 48
        } else if 'a' <= c && c <= 'z' {
            c as u16 - 87
        } else if 'A' <= c && c <= 'Z' {
            c as u16 - 55
        } else {
            99
        };
        if v >= radix as u16 {
            assert(digit_value(digits[i - start], radix as nat) is None);
            return None;
        }
        assert(acc * radix <= 255 * 16) by (nonlinear_arith)
            requires
                acc <= 255,
                radix <= 16,
        ;
        acc = acc * radix as u16 + v;
        i += 1;
        assert(digits.take(i - start).drop_last() =~= digits.take(i - 1 - start));
        if acc > 255 {
            proof {
                lemma_number_grows(digits, i - start, radix as nat);
            }
            return None;
        }
    }
    assert(digits.take(i - start) =~= digits);
    Some(acc as u8)
}

} // verus!
