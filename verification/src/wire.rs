//! Words as bytes, the least significant one first.

use vstd::prelude::*;

verus! {

/// The value of four bytes, the least significant one first.
pub open spec fn word_of(b: Seq<u8>) -> int {
    b[0] + 0x100 * b[1] + 0x1_0000 * b[2] + 0x100_0000 * b[3]
}

/// The words in bytes; bytes that make no whole word at the end are left out.
pub fn words(bytes: &[u8]) -> (r: Vec<u32>)
    ensures
        r@.len() == bytes@.len() / 4,
        forall|i: int|
            0 <= i < r@.len() ==> #[trigger] r@[i] == word_of(bytes@.subrange(4 * i, 4 * i + 4)),
{
    let total: usize = bytes.len();
    let n: usize = total / 4;
    let mut r: Vec<u32> = Vec::new();
    let mut i: usize = 0;
    while i < n
        invariant
            i <= n == total / 4,
            total == bytes@.len(),
            r@.len() == i,
            forall|k: int|
                0 <= k < i ==> #[trigger] r@[k] == word_of(bytes@.subrange(4 * k, 4 * k + 4)),
        decreases n - i,
    {
        let at: usize = 4 * i;
        let w: u32 = bytes[at] as u32 + 0x100 * bytes[at + 1] as u32 + 0x1_0000 * bytes[at
            + 2] as u32 + 0x100_0000 * bytes[at + 3] as u32;
        r.push(w);
        i += 1;
    }
    r
}

/// A word as four bytes, the least significant one first.
pub open spec fn bytes_of(w: u32) -> Seq<u8> {
    seq![
        (w % 0x100) as u8,
        (w / 0x100 % 0x100) as u8,
        (w / 0x1_0000 % 0x100) as u8,
        (w / 0x100_0000) as u8,
    ]
}

/// Words as bytes, one after the other.
pub open spec fn bytes_of_all(words: Seq<u32>) -> Seq<u8>
    decreases words.len(),
{
    if words.len() == 0 {
        Seq::empty()
    } else {
        bytes_of_all(words.drop_last()) + bytes_of(words.last())
    }
}

/// Words as bytes, one after the other.
pub fn bytes(words: &[u32]) -> (r: Vec<u8>)
    ensures
        r@ == bytes_of_all(words@),
{
    let mut r: Vec<u8> = Vec::new();
    let mut i: usize = 0;
    assert(words@.take(0) =~= Seq::<u32>::empty());
    while i < words.len()
        invariant
            i <= words@.len(),
            r@ == bytes_of_all(words@.take(i as int)),
        decreases words@.len() - i,
    {
        let w: u32 = words[i];
        let ghost before = r@;
        r.push((w % 0x100) as u8);
        r.push((w / 0x100 % 0x100) as u8);
        r.push((w / 0x1_0000 % 0x100) as u8);
        r.push((w / 0x100_0000) as u8);
        i += 1;
        assert(words@.take(i as int).drop_last() =~= words@.take(i - 1));
        assert(r@ =~= before + bytes_of(w));
    }
    assert(words@.take(i as int) =~= words@);
    r
}

proof fn lemma_bytes_len(words: Seq<u32>)
    ensures
        bytes_of_all(words).len() == 4 * words.len(),
    decreases words.len(),
{
    if words.len() > 0 {
        lemma_bytes_len(words.drop_last());
    }
}

proof fn lemma_word_at(words: Seq<u32>, i: int)
    requires
        0 <= i < words.len(),
    ensures
        bytes_of_all(words).len() == 4 * words.len(),
        bytes_of_all(words).subrange(4 * i, 4 * i + 4) == bytes_of(words[i]),
    decreases words.len(),
{
    let front = words.drop_last();
    let all = bytes_of_all(words);
    lemma_bytes_len(front);
    if i < front.len() {
        lemma_word_at(front, i);
        assert(all.subrange(4 * i, 4 * i + 4) =~= bytes_of_all(front).subrange(4 * i, 4 * i + 4));
    } else {
        assert(all.subrange(4 * i, 4 * i + 4) =~= bytes_of(words[i]));
    }
}

/// What is read is what was written: a spectrum survives its transport.
pub proof fn law_words_survive(words: Seq<u32>, i: int)
    requires
        0 <= i < words.len(),
    ensures
        bytes_of_all(words).len() == 4 * words.len(),
        word_of(bytes_of_all(words).subrange(4 * i, 4 * i + 4)) == words[i],
{
    lemma_word_at(words, i);
}

/// Words travel with their least significant byte first.
pub proof fn law_low_byte_leads(words: Seq<u32>, i: int)
    requires
        0 <= i < words.len(),
    ensures
        ({
            let b = bytes_of_all(words);
            &&& b.len() == 4 * words.len()
            &&& words[i] == b[4 * i] + 0x100 * b[4 * i + 1] + 0x1_0000 * b[4 * i + 2] + 0x100_0000
                * b[4 * i + 3]
        }),
    decreases words.len(),
{
    let head = words.drop_last();
    let before = bytes_of_all(head);
    let b = bytes_of_all(words);
    let last = words.last();
    if head.len() > 0 {
        law_low_byte_leads(head, 0);
    }
    assert(before.len() == 4 * head.len());
    assert(b =~= before + bytes_of(last));
    if i < head.len() {
        law_low_byte_leads(head, i);
        assert(head[i] == words[i]);
        assert(b[4 * i] == before[4 * i]);
        assert(b[4 * i + 1] == before[4 * i + 1]);
        assert(b[4 * i + 2] == before[4 * i + 2]);
        assert(b[4 * i + 3] == before[4 * i + 3]);
    } else {
        assert(b[4 * i] == bytes_of(last)[0]);
        assert(b[4 * i + 1] == bytes_of(last)[1]);
        assert(b[4 * i + 2] == bytes_of(last)[2]);
        assert(b[4 * i + 3] == bytes_of(last)[3]);
    }
}

} // verus!
