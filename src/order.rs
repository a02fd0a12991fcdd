use vstd::prelude::*;

verus! {

/// The sign bit of an IEEE-754 binary64 bit pattern.
pub const SIGN_BIT: u64 = 0x8000_0000_0000_0000;

/// The sort key of a binary64 bit pattern.
///
/// Keys compare as the numbers do: every negative pattern lies below every
/// non-negative one, larger magnitudes lie further from zero, and the two zeros
/// share one key. A NaN is ordered by its sign bit and payload, beyond the
/// infinity of its sign.
pub open spec fn key_of(bits: u64) -> u64 {
    if bits < SIGN_BIT {
        (bits + SIGN_BIT) as u64
    } else if bits == SIGN_BIT {
        SIGN_BIT
    } else {
        (u64::MAX - bits) as u64
    }
}

/// The sort key of the binary64 number whose bit pattern is `bits`.
pub fn order_key(bits: u64) -> (r: u64)
    ensures
        r == key_of(bits),
{
    if bits < SIGN_BIT {
        bits + SIGN_BIT
    } else if bits == SIGN_BIT {
        SIGN_BIT
    } else {
        u64::MAX - bits
    }
}

/// The sort keys of a sequence of bit patterns, one for one.
pub open spec fn keys_of(bits: Seq<u64>) -> Seq<u64> {
    bits.map_values(|b: u64| key_of(b))
}

/// The sort keys of `bits`, in the same order.
pub fn order_keys(bits: &Vec<u64>) -> (r: Vec<u64>)
    ensures
        r@ == keys_of(bits@),
{
    let mut r: Vec<u64> = Vec::with_capacity(bits.len());
    let mut i: usize = 0;
    while i < bits.len()
        invariant
            i <= bits.len(),
            r@ == keys_of(bits@.take(i as int)),
        decreases bits.len() - i,
    {
        r.push(order_key(bits[i]));
        i += 1;
        assert(keys_of(bits@.take(i as int)) =~= keys_of(bits@.take(i - 1)).push(key_of(bits@[i - 1])));
    }
    assert(bits@.take(i as int) =~= bits@);
    r
}

/// Non-negative patterns keep their order: a larger pattern is a larger
/// number and gets a larger key.
pub proof fn lemma_non_negative_order(a: u64, b: u64)
    requires
        a < b < SIGN_BIT,
    ensures
        key_of(a) < key_of(b),
{
}

/// Negative patterns reverse their order: a larger magnitude is a smaller
/// number and gets a smaller key. Negative zero is left out: it is zero.
pub proof fn lemma_negative_order(a: u64, b: u64)
    requires
        SIGN_BIT < a < b,
    ensures
        key_of(b) < key_of(a),
{
}

/// Every negative non-zero pattern lies below every non-negative one.
pub proof fn lemma_sign_order(neg: u64, pos: u64)
    requires
        SIGN_BIT < neg,
        pos < SIGN_BIT,
    ensures
        key_of(neg) < key_of(pos),
        key_of(neg) < key_of(SIGN_BIT),
{
}

/// Two patterns share a key only when they are equal or are the two zeros.
pub proof fn lemma_same_key_same_bits(a: u64, b: u64)
    requires
        key_of(a) == key_of(b),
    ensures
        a == b || (a == 0 && b == SIGN_BIT) || (a == SIGN_BIT && b == 0),
{
}

} // verus!
