//! Computations whose results tell whether the code that makes them was moved
//! intact.

use vstd::prelude::*;

verus! {

/// The number of values that 32 bits hold.
pub const WORDS: u64 = 0x1_0000_0000;

/// The sum of the first `count` values.
pub open spec fn sum_of(values: Seq<u32>, count: nat) -> nat
    decreases count,
{
    if count == 0 {
        0
    } else {
        sum_of(values, (count - 1) as nat) + values[count - 1] as nat
    }
}

/// The exclusive or of the first `count` values.
pub open spec fn parity_of(values: Seq<u32>, count: nat) -> u32
    decreases count,
{
    if count == 0 {
        0
    } else {
        parity_of(values, (count - 1) as nat) ^ values[count - 1]
    }
}

/// What the values fold into.
pub open spec fn folded(values: Seq<u32>) -> u32 {
    ((2 * sum_of(values, values.len()) + parity_of(values, values.len())) % (WORDS as int)) as u32
}

/// The first values alone decide their sum and their exclusive or.
proof fn lemma_first_values(values: Seq<u32>, other: Seq<u32>, count: nat)
    requires
        count <= values.len(),
        count <= other.len(),
        forall|i: int| 0 <= i < count ==> values[i] == other[i],
    ensures
        sum_of(values, count) == sum_of(other, count),
        parity_of(values, count) == parity_of(other, count),
    decreases count,
{
    if count > 0 {
        lemma_first_values(values, other, (count - 1) as nat);
    }
}

/// Taking one value out takes it out of the sum and of the exclusive or.
proof fn lemma_taken_out(values: Seq<u32>, k: int)
    requires
        0 <= k < values.len(),
    ensures
        sum_of(values, values.len()) == sum_of(values.remove(k), (values.len() - 1) as nat)
            + values[k],
        parity_of(values, values.len()) == parity_of(values.remove(k), (values.len() - 1) as nat)
            ^ values[k],
    decreases values.len(),
{
    let rest = values.remove(k);
    let last = values.len() - 1;
    if k == last {
        lemma_first_values(values, rest, last as nat);
    } else {
        let shorter = values.drop_last();
        lemma_taken_out(shorter, k);
        lemma_first_values(values, shorter, last as nat);
        lemma_first_values(rest, shorter.remove(k), (last - 1) as nat);
        let a = parity_of(shorter.remove(k), (last - 1) as nat);
        let b = values[k];
        let c = values[last];
        assert((a ^ b) ^ c == (a ^ c) ^ b) by (bit_vector);
    }
}

/// The order of the values does not matter.
pub proof fn lemma_order_does_not_matter(values: Seq<u32>, permuted: Seq<u32>)
    requires
        values.to_multiset() == permuted.to_multiset(),
    ensures
        folded(values) == folded(permuted),
        sum_of(values, values.len()) == sum_of(permuted, permuted.len()),
        parity_of(values, values.len()) == parity_of(permuted, permuted.len()),
    decreases values.len(),
{
    broadcast use vstd::seq_lib::group_to_multiset_ensures;

    if values.len() == 0 {
        if permuted.len() > 0 {
            assert(permuted.contains(permuted[0]));
            assert(values.to_multiset().count(permuted[0]) > 0);
            assert(values.contains(permuted[0]));
        }
    } else {
        let last = values.len() - 1;
        let x = values[last];
        assert(values.to_multiset().count(x) > 0) by {
            assert(values.contains(x));
        }
        assert(permuted.contains(x));
        let k = choose|k: int| 0 <= k < permuted.len() && permuted[k] == x;
        let rest = permuted.remove(k);
        assert(values.remove(last) =~= values.drop_last());
        assert(values.drop_last().to_multiset() =~= values.to_multiset().remove(x));
        assert(rest.to_multiset() =~= permuted.to_multiset().remove(x));
        lemma_order_does_not_matter(values.drop_last(), rest);
        lemma_taken_out(permuted, k);
        lemma_taken_out(values, last);
    }
}

/// Adds the values up and folds them into one number: twice the sum, and the
/// exclusive or, modulo 2 to the 32.
pub fn accumulate(values: &[u32]) -> (result: u32)
    ensures
        result == folded(values@),
{
    let mut total: u32 = 0;
    let mut parity: u32 = 0;
    let mut index: usize = 0;
    while index < values.len()
        invariant
            index <= values@.len(),
            total == sum_of(values@, index as nat) % (WORDS as nat),
            parity == parity_of(values@, index as nat),
        decreases values@.len() - index,
    {
        total = total.wrapping_add(values[index]);
        parity = parity ^ values[index];
        index += 1;
    }
    total.wrapping_mul(2).wrapping_add(parity)
}

/// The 32 bits of `value`, moved seven places up; what leaves at the top comes in
/// at the bottom.
pub open spec fn rotated(value: u32) -> u32 {
    (value % 0x0200_0000 * 128 + value / 0x0200_0000) as u32
}

/// Rotating is shifting both ways.
pub proof fn lemma_rotated(value: u32)
    ensures
        rotated(value) == (value << 7) | (value >> 25),
{
    assert(value % 0x0200_0000 * 128 + value / 0x0200_0000 == (value << 7) | (value >> 25))
        by (bit_vector);
}

/// `seed` after the first `rounds` rounds.
pub open spec fn stirred(seed: u32, rounds: nat) -> u32
    decreases rounds,
{
    if rounds == 0 {
        seed
    } else {
        let value = rotated(stirred(seed, (rounds - 1) as nat)) ^ ((rounds - 1) as u32);
        (value * 0x9e37_79b9 % (WORDS as int)) as u32
    }
}

/// Stirs a number in four rounds.
pub fn transform(seed: u32) -> (value: u32)
    ensures
        value == stirred(seed, 4),
{
    let mut value: u32 = seed;
    let mut round: u32 = 0;
    while round < 4
        invariant
            round <= 4,
            value == stirred(seed, round as nat),
        decreases 4 - round,
    {
        let mixed: u32 = (value % 0x0200_0000 * 128 + value / 0x0200_0000) ^ round;
        value = mixed.wrapping_mul(0x9e37_79b9);
        round += 1;
    }
    value
}

/// All values count, however many there are: the result is made of the sum and the
/// exclusive or of all of them.
pub proof fn lemma_every_value_counts(values: Seq<u32>)
    ensures
        sum_of(values, values.len()) == values.fold_left(0int, |sum: int, value: u32| sum + value),
        parity_of(values, values.len()) == values.fold_left(
            0u32,
            |parity: u32, value: u32| parity ^ value,
        ),
        folded(values) == (2 * values.fold_left(0int, |sum: int, value: u32| sum + value)
            + values.fold_left(0u32, |parity: u32, value: u32| parity ^ value)) % 0x1_0000_0000,
    decreases values.len(),
{
    if values.len() > 0 {
        let front = values.drop_last();
        lemma_every_value_counts(front);
        lemma_first_values(values, front, front.len());
        assert(values.last() == values[values.len() - 1]);
    }
    let total = 2 * sum_of(values, values.len()) + parity_of(values, values.len());
    assert(0 <= total % (WORDS as int) < WORDS);
}

/// A value that changes shows: the exclusive or changes in the bits in which the value
/// does.
pub proof fn lemma_changed_value_shows(values: Seq<u32>, k: int, value: u32)
    requires
        0 <= k < values.len(),
        value != values[k],
    ensures
        parity_of(values.update(k, value), values.len()) != parity_of(values, values.len()),
        parity_of(values.update(k, value), values.len()) ^ parity_of(values, values.len()) == value
            ^ values[k],
{
    let changed = values.update(k, value);
    lemma_taken_out(values, k);
    lemma_taken_out(changed, k);
    assert(changed.remove(k) =~= values.remove(k));
    let rest = parity_of(values.remove(k), (values.len() - 1) as nat);
    let old_value = values[k];
    assert((rest ^ value) ^ (rest ^ old_value) == value ^ old_value) by (bit_vector);
    assert(value != old_value ==> rest ^ value != rest ^ old_value) by (bit_vector);
}

/// One round: the number is rotated seven places up, the number of the round is mixed
/// in, and the result is multiplied.
pub open spec fn round_of(value: u32, round: u32) -> u32 {
    ((((value << 7) | (value >> 25)) ^ round) * 0x9e37_79b9 % 0x1_0000_0000) as u32
}

/// Stirring is four rounds, numbered from zero.
pub proof fn lemma_stirring_is_four_rounds(seed: u32)
    ensures
        stirred(seed, 4) == round_of(round_of(round_of(round_of(seed, 0), 1), 2), 3),
{
    reveal_with_fuel(stirred, 5);
    let first = stirred(seed, 1);
    let second = stirred(seed, 2);
    let third = stirred(seed, 3);
    lemma_rotated(seed);
    lemma_rotated(first);
    lemma_rotated(second);
    lemma_rotated(third);
}

/// Different numbers are stirred into different numbers.
pub proof fn lemma_stirring_loses_nothing(one: u32, other: u32, rounds: nat)
    requires
        stirred(one, rounds) == stirred(other, rounds),
        rounds <= 0x1_0000_0000,
    ensures
        one == other,
    decreases rounds,
{
    if rounds > 0 {
        let a = stirred(one, (rounds - 1) as nat);
        let b = stirred(other, (rounds - 1) as nat);
        let round = (rounds - 1) as u32;
        let x = rotated(a) ^ round;
        let y = rotated(b) ^ round;
        lemma_multiplying_loses_nothing(x, y);
        let p = rotated(a);
        let q = rotated(b);
        assert(p ^ round == q ^ round ==> p == q) by (bit_vector);
        assert(a == b) by {
            assert(p == q);
            assert(a % 0x0200_0000 * 128 + a / 0x0200_0000 == b % 0x0200_0000 * 128 + b
                / 0x0200_0000);
        }
        lemma_stirring_loses_nothing(one, other, (rounds - 1) as nat);
    }
}

/// Multiplying by an odd number modulo a power of two loses nothing: it can be undone.
proof fn lemma_multiplying_loses_nothing(x: u32, y: u32)
    requires
        x * 0x9e37_79b9 % 0x1_0000_0000 == y * 0x9e37_79b9 % 0x1_0000_0000,
    ensures
        x == y,
{
    lemma_multiplied_back(x as int);
    lemma_multiplied_back(y as int);
}

/// The product can be multiplied back.
proof fn lemma_multiplied_back(x: int)
    requires
        0 <= x < 0x1_0000_0000,
    ensures
        (x * 0x9e37_79b9 % 0x1_0000_0000) * 0x144c_bc89 % 0x1_0000_0000 == x,
{
    let c: int = 0x9e37_79b9;
    let d: int = 0x144c_bc89;
    let w: int = 0x1_0000_0000;
    vstd::arithmetic::div_mod::lemma_mul_mod_noop_left(x * c, d, w);
    assert((x * c) * d == x * (c * d)) by (nonlinear_arith);
    let q: int = c * d / w;
    assert(c * d == q * w + 1);
    assert(x * (c * d) == w * (q * x) + x) by (nonlinear_arith)
        requires
            c * d == q * w + 1,
    ;
    vstd::arithmetic::div_mod::lemma_mod_multiples_vanish(q * x, x, w);
    vstd::arithmetic::div_mod::lemma_small_mod(x as nat, w as nat);
}

} // verus!
