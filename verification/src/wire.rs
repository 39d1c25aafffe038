//! Big-endian 32-bit words in a sequence of bytes.

use vstd::prelude::*;

verus! {

/// The value of four bytes read as a big-endian word.
pub open spec fn be_value(b0: u8, b1: u8, b2: u8, b3: u8) -> u32 {
    (b0 as int * 0x100_0000 + b1 as int * 0x1_0000 + b2 as int * 0x100 + b3 as int) as u32
}

/// The four bytes of a word, most significant first.
pub open spec fn be_bytes(value: u32) -> Seq<u8> {
    seq![
        (value / 0x100_0000) as u8,
        ((value / 0x1_0000) % 0x100) as u8,
        ((value / 0x100) % 0x100) as u8,
        (value % 0x100) as u8,
    ]
}

/// The word that the four bytes from `at` on hold.
pub open spec fn word_at(bytes: Seq<u8>, at: int) -> u32 {
    be_value(bytes[at], bytes[at + 1], bytes[at + 2], bytes[at + 3])
}

/// The bytes of a sequence of words, each big-endian, in order.
pub open spec fn words_bytes(words: Seq<u32>) -> Seq<u8>
    decreases words.len(),
{
    if words.len() == 0 {
        Seq::empty()
    } else {
        words_bytes(words.drop_last()) + be_bytes(words.last())
    }
}

/// Reading what was written gives the word back.
pub proof fn lemma_be_round_trip(value: u32)
    ensures
        be_bytes(value).len() == 4,
        word_at(be_bytes(value), 0) == value,
{
}

/// The bytes of `words` are four for each word, and the word at place `k` is read
/// back from offset `4 * k`, whatever bytes stand before and after.
pub proof fn lemma_words_bytes(words: Seq<u32>)
    ensures
        words_bytes(words).len() == 4 * words.len(),
        forall|k: int| 0 <= k < words.len() ==> word_at(words_bytes(words), 4 * k) == #[trigger] words[k],
    decreases words.len(),
{
    if words.len() > 0 {
        let init = words.drop_last();
        lemma_words_bytes(init);
        lemma_be_round_trip(words.last());
        assert forall|k: int| 0 <= k < words.len() implies word_at(words_bytes(words), 4 * k)
            == #[trigger] words[k] by {
            if k < init.len() {
                assert(init[k] == words[k]);
                assert(word_at(words_bytes(init), 4 * k) == init[k]);
            } else {
                let tail = be_bytes(words.last());
                assert(words_bytes(words)[4 * k] == tail[0]);
                assert(words_bytes(words)[4 * k + 1] == tail[1]);
                assert(words_bytes(words)[4 * k + 2] == tail[2]);
                assert(words_bytes(words)[4 * k + 3] == tail[3]);
            }
        }
    }
}

/// Reads the big-endian word at `at`.
pub fn read_word(bytes: &[u8], at: usize) -> (value: u32)
    requires
        at + 4 <= bytes.len(),
    ensures
        value == word_at(bytes@, at as int),
{
    let b0: u32 = bytes[at] as u32;
    let b1: u32 = bytes[at + 1] as u32;
    let b2: u32 = bytes[at + 2] as u32;
    let b3: u32 = bytes[at + 3] as u32;
    b0 * 0x100_0000 + b1 * 0x1_0000 + b2 * 0x100 + b3
}

/// Appends the four bytes of a word, most significant first.
pub fn push_word(out: &mut Vec<u8>, value: u32)
    ensures
        final(out)@ == old(out)@ + be_bytes(value),
{
    out.push((value / 0x100_0000) as u8);
    out.push(((value / 0x1_0000) % 0x100) as u8);
    out.push(((value / 0x100) % 0x100) as u8);
    out.push((value % 0x100) as u8);
    assert(out@ =~= old(out)@ + be_bytes(value));
}

/// The bytes of a sequence of words.
pub fn to_bytes(words: &Vec<u32>, out: &mut Vec<u8>)
    ensures
        final(out)@ == old(out)@ + words_bytes(words@),
{
    let mut k: usize = 0;
    assert(words@.take(0) =~= Seq::<u32>::empty());
    assert(out@ =~= old(out)@ + words_bytes(words@.take(0)));
    while k < words.len()
        invariant
            k <= words.len(),
            out@ == old(out)@ + words_bytes(words@.take(k as int)),
        decreases words.len() - k,
    {
        push_word(out, words[k]);
        proof {
            let next = words@.take(k + 1);
            assert(next.drop_last() =~= words@.take(k as int));
            assert(next.last() == words[k as int]);
            assert(out@ =~= old(out)@ + words_bytes(next));
        }
        k += 1;
    }
    assert(words@.take(k as int) =~= words@);
}

} // verus!
