//! The text form of assembled words: each word as sixteen binary digits,
//! most significant first, one word per line, no newline after the last.
use vstd::prelude::*;

verus! {

/// The value of binary place `k`: two to the power `k`.
pub open spec fn place(k: nat) -> nat
    decreases k,
{
    if k == 0 {
        1
    } else {
        2 * place((k - 1) as nat)
    }
}

pub proof fn lemma_place_positive(k: nat)
    ensures
        place(k) >= 1,
    decreases k,
{
    if k > 0 {
        lemma_place_positive((k - 1) as nat);
    }
}

/// The sixteen ASCII binary digits of `w`, most significant first.
pub open spec fn word_text(w: u16) -> Seq<u8> {
    Seq::new(16, |i: int| if (w as nat / place((15 - i) as nat)) % 2 == 1 { 0x31u8 } else { 0x30u8 })
}

/// The words' digit lines joined by single newlines.
pub open spec fn hack_text(words: Seq<u16>) -> Seq<u8>
    decreases words.len(),
{
    if words.len() == 0 {
        seq![]
    } else if words.len() == 1 {
        word_text(words[0])
    } else {
        hack_text(words.drop_last()).push(0x0au8) + word_text(words.last())
    }
}

/// Writes assembled programs in their text form.
pub struct FileHandler;

impl FileHandler {
    /// The bytes of the text form of `words`: see `hack_text`.
    pub fn hack_bytes(words: &Vec<u16>) -> (r: Vec<u8>)
        ensures
            r@ == hack_text(words@),
    {
        let mut out: Vec<u8> = Vec::new();
        let mut i: usize = 0;
        while i < words.len()
            invariant
                i <= words@.len(),
                out@ == hack_text(words@.take(i as int)),
            decreases words@.len() - i,
        {
            assert(words@.take(i + 1).drop_last() =~= words@.take(i as int));
            if i > 0 {
                out.push(0x0a);
            }
            push_word(&mut out, words[i]);
            i = i + 1;
            assert(words@.take(i as int).last() == words@[i - 1]);
            assert(i == 1 ==> words@.take(i as int)[0] == words@[0]);
        }
        assert(words@.take(words@.len() as int) =~= words@);
        out
    }
}

/// Appends the sixteen binary digits of `w` to `out`.
fn push_word(out: &mut Vec<u8>, w: u16)
    ensures
        final(out)@ == old(out)@ + word_text(w),
{
    let ghost start = out@;
    let mut place_value: u16 = 32768;
    let mut i: usize = 0;
    proof {
        reveal_with_fuel(place, 16);
    }
    while i < 16
        invariant
            i <= 16,
            i < 16 ==> place_value as nat == place((15 - i) as nat),
            out@ == start + word_text(w).take(i as int),
        decreases 16 - i,
    {
        proof {
            lemma_place_positive((15 - i) as nat);
        }
        let digit: u8 = if (w / place_value) % 2 == 1 { 0x31 } else { 0x30 };
        out.push(digit);
        assert(out@ =~= start + word_text(w).take(i + 1));
        if i < 15 {
            assert(place((15 - i) as nat) == 2 * place((14 - i) as nat));
            place_value = place_value / 2;
        }
        i = i + 1;
    }
    assert(word_text(w).take(16) =~= word_text(w));
}

} // verus!
