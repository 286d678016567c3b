//! Byte layout of machine words in memory.
use vstd::prelude::*;

verus! {

/// `256` to the power `i`.
pub open spec fn pow256(i: nat) -> nat
    decreases i,
{
    if i == 0 {
        1
    } else {
        256 * pow256((i - 1) as nat)
    }
}

/// The eight bytes of a 64-bit word, least significant first.
pub open spec fn word_bytes(x: u64) -> Seq<u8> {
    Seq::new(8, |i: int| ((x as nat / pow256(i as nat)) % 256) as u8)
}

/// Appends the bytes of `x`, least significant first.
pub fn push_word(v: &mut Vec<u8>, x: u64)
    ensures
        final(v)@ == old(v)@ + word_bytes(x),
{
    let mut cur = x;
    let mut j: usize = 0;
    assert(pow256(0nat) == 1);
    assert(x as nat / 1 == x as nat);
    while j < 8
        invariant
            j <= 8,
            cur as nat == x as nat / pow256(j as nat),
            v@ == old(v)@ + word_bytes(x).take(j as int),
        decreases 8 - j,
    {
        v.push((cur % 256) as u8);
        proof {
            assert(pow256(j as nat) > 0) by {
                lemma_pow256_pos(j as nat);
            }
            vstd::arithmetic::div_mod::lemma_div_denominator(x as int, pow256(j as nat) as int, 256);
            assert(pow256((j + 1) as nat) == pow256(j as nat) * 256);
            assert(word_bytes(x).take(j + 1) =~= word_bytes(x).take(j as int).push((cur % 256) as u8));
        }
        cur = cur / 256;
        j += 1;
    }
    assert(word_bytes(x).take(8) =~= word_bytes(x));
}

proof fn lemma_pow256_pos(i: nat)
    ensures
        pow256(i) > 0,
    decreases i,
{
    if i > 0 {
        lemma_pow256_pos((i - 1) as nat);
    }
}

} // verus!
