//! The combinations of the elements of a list: every way to pick some of
//! them, each pick in the order of the list, the picks in the order of their
//! inclusion masks.
//!
//! A mask is a number whose bit `i` says whether element `i` is picked.

use vstd::arithmetic::power2::{lemma_pow2_pos, lemma_pow2_unfold, pow2};
use vstd::prelude::*;

verus! {

/// How many elements `mask` picks: the number of its one bits.
pub open spec fn spec_ones(mask: nat) -> nat
    decreases mask,
{
    if mask == 0 {
        0
    } else {
        (mask % 2) + spec_ones(mask / 2)
    }
}

/// The elements of `items` that `mask` picks, in the order of `items`.
pub open spec fn spec_pick<T>(items: Seq<T>, mask: nat) -> Seq<T>
    decreases items.len(),
{
    if items.len() == 0 {
        Seq::empty()
    } else if mask % 2 == 1 {
        seq![items[0]] + spec_pick(items.drop_first(), mask / 2)
    } else {
        spec_pick(items.drop_first(), mask / 2)
    }
}

/// The picks of the masks `1..=last` that hold at least `min` and at most
/// `max` elements, by ascending mask.
pub open spec fn spec_combinations_upto<T>(items: Seq<T>, min: nat, max: nat, last: nat) -> Seq<
    Seq<T>,
>
    decreases last,
{
    if last == 0 {
        Seq::empty()
    } else if min <= spec_ones(last) <= max {
        spec_combinations_upto(items, min, max, (last - 1) as nat).push(spec_pick(items, last))
    } else {
        spec_combinations_upto(items, min, max, (last - 1) as nat)
    }
}

/// All combinations of `items` that hold at least `min` and at most `max`
/// elements.
pub open spec fn spec_combinations<T>(items: Seq<T>, min: nat, max: nat) -> Seq<Seq<T>> {
    spec_combinations_upto(items, min, max, (pow2(items.len()) - 1) as nat)
}

/// A mask below `2^n` picks as many of `n` elements as it has one bits.
pub proof fn lemma_pick_len<T>(items: Seq<T>, mask: nat)
    requires
        mask < pow2(items.len()),
    ensures
        spec_pick(items, mask).len() == spec_ones(mask),
    decreases items.len(),
{
    if items.len() == 0 {
        assert(pow2(0) == 1) by {
            vstd::arithmetic::power2::lemma2_to64();
        }
        assert(spec_ones(0) == 0);
    } else {
        lemma_pow2_unfold(items.len());
        assert(items.drop_first().len() == items.len() - 1);
        lemma_pick_len(items.drop_first(), mask / 2);
    }
}

/// A pick holds elements of the list only.
pub proof fn lemma_pick_elements<T>(items: Seq<T>, mask: nat, k: int)
    requires
        0 <= k < spec_pick(items, mask).len(),
    ensures
        items.contains(spec_pick(items, mask)[k]),
    decreases items.len(),
{
    if items.len() > 0 {
        let rest = items.drop_first();
        if mask % 2 == 1 && k == 0 {
            assert(items[0] == spec_pick(items, mask)[k]);
        } else {
            let k2 = if mask % 2 == 1 {
                k - 1
            } else {
                k
            };
            lemma_pick_elements(rest, mask / 2, k2);
            let x = spec_pick(rest, mask / 2)[k2];
            let j = choose|j: int| 0 <= j < rest.len() && rest[j] == x;
            assert(items[j + 1] == x);
        }
    }
}

/// No pick holds more elements than the list.
pub proof fn lemma_pick_len_bound<T>(items: Seq<T>, mask: nat)
    ensures
        spec_pick(items, mask).len() <= items.len(),
    decreases items.len(),
{
    if items.len() > 0 {
        lemma_pick_len_bound(items.drop_first(), mask / 2);
    }
}

/// The only pick that holds as many elements as the list is the list.
pub proof fn lemma_pick_full<T>(items: Seq<T>, mask: nat)
    requires
        spec_pick(items, mask).len() == items.len(),
    ensures
        spec_pick(items, mask) == items,
    decreases items.len(),
{
    if items.len() > 0 {
        lemma_pick_len_bound(items.drop_first(), mask / 2);
        lemma_pick_full(items.drop_first(), mask / 2);
        assert(seq![items[0]] + items.drop_first() =~= items);
    } else {
        assert(spec_pick(items, mask) =~= items);
    }
}

/// Each of the combinations is the pick of a mask from 1 to `last` whose
/// number of one bits is in range, and there are at most `last` of them.
pub proof fn lemma_combinations_upto<T>(items: Seq<T>, min: nat, max: nat, last: nat)
    ensures
        spec_combinations_upto(items, min, max, last).len() <= last,
        forall|k: int|
            0 <= k < spec_combinations_upto(items, min, max, last).len() ==> exists|m: nat|
                1 <= m <= last && min <= spec_ones(m) <= max && #[trigger] spec_combinations_upto(
                    items,
                    min,
                    max,
                    last,
                )[k] == spec_pick(items, m),
    decreases last,
{
    if last > 0 {
        let before = spec_combinations_upto(items, min, max, (last - 1) as nat);
        let now = spec_combinations_upto(items, min, max, last);
        lemma_combinations_upto(items, min, max, (last - 1) as nat);
        assert forall|k: int| 0 <= k < now.len() implies exists|m: nat|
            1 <= m <= last && min <= spec_ones(m) <= max && #[trigger] now[k] == spec_pick(
                items,
                m,
            ) by {
            if k < before.len() {
                let m = choose|m: nat|
                    1 <= m <= last - 1 && min <= spec_ones(m) <= max && before[k] == spec_pick(
                        items,
                        m,
                    );
                assert(1 <= m <= last && min <= spec_ones(m) <= max && now[k] == spec_pick(
                    items,
                    m,
                ));
            } else {
                assert(1 <= last <= last && min <= spec_ones(last) <= max && now[k] == spec_pick(
                    items,
                    last,
                ));
            }
        }
    }
}

/// The combinations up to one mask begin the combinations up to a later one.
pub proof fn lemma_combinations_grow<T>(items: Seq<T>, min: nat, max: nat, early: nat, late: nat)
    requires
        early <= late,
    ensures
        spec_combinations_upto(items, min, max, early).len() <= spec_combinations_upto(
            items,
            min,
            max,
            late,
        ).len(),
    decreases late,
{
    if early < late {
        lemma_combinations_grow(items, min, max, early, (late - 1) as nat);
    }
}

/// A mask below `2^n` has at most `n` one bits, and a mask that is not 0 has
/// at least one.
pub proof fn lemma_ones_bound(mask: nat, n: nat)
    requires
        mask < pow2(n),
    ensures
        spec_ones(mask) <= n,
        mask >= 1 ==> spec_ones(mask) >= 1,
    decreases n,
{
    if n == 0 {
        vstd::arithmetic::power2::lemma2_to64();
        assert(spec_ones(0) == 0);
    } else {
        lemma_pow2_unfold(n);
        lemma_ones_bound(mask / 2, (n - 1) as nat);
    }
}

/// Where every mask up to `last` has its number of one bits in range, there
/// are `last` combinations.
pub proof fn lemma_combinations_all<T>(items: Seq<T>, min: nat, max: nat, last: nat)
    requires
        forall|m: nat| 1 <= m <= last ==> min <= #[trigger] spec_ones(m) <= max,
    ensures
        spec_combinations_upto(items, min, max, last).len() == last,
    decreases last,
{
    if last > 0 {
        lemma_combinations_all(items, min, max, (last - 1) as nat);
        assert(min <= spec_ones(last) <= max);
    }
}

/// A list of `n` elements has `2^n - 1` combinations: every way to pick some
/// of its elements but the empty one.
pub proof fn lemma_all_combinations_len<T>(items: Seq<T>)
    ensures
        spec_combinations(items, 1, items.len()).len() == pow2(items.len()) - 1,
{
    lemma_pow2_pos(items.len());
    let last = (pow2(items.len()) - 1) as nat;
    assert forall|m: nat| 1 <= m <= last implies 1 <= #[trigger] spec_ones(m) <= items.len() by {
        lemma_ones_bound(m, items.len());
    }
    lemma_combinations_all(items, 1, items.len(), last);
}

/// A list of four or more elements has a combination of four.
pub proof fn lemma_has_combination_of_four<T>(items: Seq<T>)
    requires
        items.len() >= 4,
    ensures
        spec_combinations(items, 4, 4).len() >= 1,
{
    reveal_with_fuel(spec_ones, 6);
    assert(spec_ones(15) == 4);
    vstd::arithmetic::power2::lemma2_to64();
    if items.len() > 4 {
        vstd::arithmetic::power2::lemma_pow2_strictly_increases(4, items.len());
    }
    assert(pow2(items.len()) >= 16);
    lemma_combinations_grow(items, 4, 4, 15, (pow2(items.len()) - 1) as nat);
    assert(spec_combinations_upto(items, 4, 4, 15).len() >= 1);
}

/// Each combination of a list holds at least `min` and at most `max`
/// elements, all of them elements of the list.
pub proof fn lemma_combinations<T>(items: Seq<T>, min: nat, max: nat, k: int)
    requires
        0 <= k < spec_combinations(items, min, max).len(),
    ensures
        spec_combinations(items, min, max).len() < pow2(items.len()),
        min <= spec_combinations(items, min, max)[k].len() <= max,
        spec_combinations(items, min, max)[k].len() <= items.len(),
        exists|m: nat| #[trigger]
            spec_pick(items, m) == spec_combinations(items, min, max)[k] && 1 <= m < pow2(
                items.len(),
            ) && min <= spec_ones(m) <= max,
        forall|j: int|
            0 <= j < spec_combinations(items, min, max)[k].len() ==> items.contains(
                #[trigger] spec_combinations(items, min, max)[k][j],
            ),
{
    lemma_pow2_pos(items.len());
    let last = (pow2(items.len()) - 1) as nat;
    lemma_combinations_upto(items, min, max, last);
    let c = spec_combinations(items, min, max)[k];
    let m = choose|m: nat|
        1 <= m <= last && min <= spec_ones(m) <= max && spec_combinations_upto(
            items,
            min,
            max,
            last,
        )[k] == spec_pick(items, m);
    lemma_pick_len(items, m);
    lemma_pick_len_bound(items, m);
    assert(spec_pick(items, m) == c);
    assert forall|j: int| 0 <= j < c.len() implies items.contains(#[trigger] c[j]) by {
        lemma_pick_elements(items, m, j);
    }
}

/// The number of one bits of `mask`.
pub fn ones(mask: u64) -> (n: u32)
    ensures
        n == spec_ones(mask as nat),
        n <= 64,
{
    let mut rest = mask;
    let mut n: u32 = 0;
    let ghost mut bits: nat = 64;
    proof {
        vstd::arithmetic::power2::lemma2_to64();
        assert(pow2(64) == 0x10000000000000000);
    }
    while rest != 0
        invariant
            n + spec_ones(rest as nat) == spec_ones(mask as nat),
            rest < pow2(bits),
            n + bits <= 64,
        decreases rest,
    {
        proof {
            if bits == 0 {
                assert(pow2(0) == 1) by {
                    vstd::arithmetic::power2::lemma2_to64();
                }
            } else {
                lemma_pow2_unfold(bits);
                bits = (bits - 1) as nat;
            }
        }
        if rest % 2 == 1 {
            n += 1;
        }
        rest = rest / 2;
    }
    assert(spec_ones(0) == 0);
    n
}

/// The elements of `items` that `mask` picks.
pub fn pick<T: Copy>(items: &Vec<T>, mask: u64) -> (picked: Vec<T>)
    ensures
        picked@ == spec_pick(items@, mask as nat),
{
    let n = items.len();
    let mut picked: Vec<T> = Vec::new();
    let mut rest = mask;
    let mut i: usize = 0;
    assert(items@.subrange(0, n as int) =~= items@);
    while i < n
        invariant
            i <= n,
            n == items@.len(),
            picked@ + spec_pick(items@.subrange(i as int, n as int), rest as nat) == spec_pick(
                items@,
                mask as nat,
            ),
        decreases n - i,
    {
        proof {
            let tail = items@.subrange(i as int, n as int);
            assert(tail.drop_first() =~= items@.subrange(i + 1, n as int));
            assert(tail[0] == items@[i as int]);
            if rest % 2 == 1 {
                assert(picked@.push(items@[i as int]) + spec_pick(tail.drop_first(), rest as nat / 2)
                    =~= picked@ + spec_pick(tail, rest as nat));
            }
        }
        if rest % 2 == 1 {
            picked.push(items[i]);
        }
        rest = rest / 2;
        i += 1;
    }
    assert(picked@ + Seq::<T>::empty() =~= picked@);
    picked
}

/// Two to the power `n`.
fn power_of_two(n: usize) -> (p: u64)
    requires
        n < 64,
    ensures
        p == pow2(n as nat),
{
    let mut p: u64 = 1;
    let mut i: usize = 0;
    proof {
        vstd::arithmetic::power2::lemma2_to64();
        vstd::arithmetic::power2::lemma2_to64_rest();
    }
    while i < n
        invariant
            i <= n,
            n < 64,
            p == pow2(i as nat),
            p <= pow2(63),
            pow2(63) == 0x8000000000000000,
        decreases n - i,
    {
        proof {
            lemma_pow2_unfold((i + 1) as nat);
            if i + 1 < 63 {
                vstd::arithmetic::power2::lemma_pow2_strictly_increases((i + 1) as nat, 63);
            }
        }
        p = p * 2;
        i += 1;
    }
    p
}

/// All combinations of the elements of `vector` that hold at least `min` and
/// at most `max` of them. Each keeps the order of `vector`; they come by
/// ascending inclusion mask.
pub fn all_combinations_of_size<T: Copy>(vector: Vec<T>, min: u32, max: u32) -> (combinations: Vec<
    Vec<T>,
>)
    requires
        vector@.len() < 64,
    ensures
        combinations@.len() == spec_combinations(vector@, min as nat, max as nat).len(),
        forall|k: int|
            0 <= k < combinations@.len() ==> (#[trigger] combinations@[k])@ == spec_combinations(
                vector@,
                min as nat,
                max as nat,
            )[k],
{
    let limit = power_of_two(vector.len());
    let mut combinations: Vec<Vec<T>> = Vec::new();
    let mut mask: u64 = 1;
    proof {
        lemma_pow2_pos(vector@.len());
    }
    while mask < limit
        invariant
            1 <= mask <= limit,
            limit == pow2(vector@.len()),
            combinations@.len() == spec_combinations_upto(
                vector@,
                min as nat,
                max as nat,
                (mask - 1) as nat,
            ).len(),
            forall|k: int|
                0 <= k < combinations@.len() ==> (#[trigger] combinations@[k])@
                    == spec_combinations_upto(
                    vector@,
                    min as nat,
                    max as nat,
                    (mask - 1) as nat,
                )[k],
        decreases limit - mask,
    {
        let count = ones(mask);
        if min <= count && count <= max {
            let picked = pick(&vector, mask);
            combinations.push(picked);
        }
        mask += 1;
    }
    combinations
}

/// All combinations of the elements of `vector`, the empty one left out.
pub fn all_combinations<T: Copy>(vector: Vec<T>) -> (combinations: Vec<Vec<T>>)
    requires
        vector@.len() < 64,
    ensures
        combinations@.len() == spec_combinations(vector@, 1, vector@.len()).len(),
        forall|k: int|
            0 <= k < combinations@.len() ==> (#[trigger] combinations@[k])@ == spec_combinations(
                vector@,
                1,
                vector@.len(),
            )[k],
{
    let max = vector.len() as u32;
    all_combinations_of_size(vector, 1, max)
}

/// All combinations that hold at least `min` elements of `vector`.
pub fn all_combinations_of_min_size<T: Copy>(vector: Vec<T>, min: u32) -> (combinations: Vec<
    Vec<T>,
>)
    requires
        vector@.len() < 64,
    ensures
        combinations@.len() == spec_combinations(vector@, min as nat, vector@.len()).len(),
        forall|k: int|
            0 <= k < combinations@.len() ==> (#[trigger] combinations@[k])@ == spec_combinations(
                vector@,
                min as nat,
                vector@.len(),
            )[k],
{
    let max = vector.len() as u32;
    all_combinations_of_size(vector, min, max)
}

/// All combinations that hold at least one and at most `max` elements of
/// `vector`.
pub fn all_combinations_of_max_size<T: Copy>(vector: Vec<T>, max: u32) -> (combinations: Vec<
    Vec<T>,
>)
    requires
        vector@.len() < 64,
    ensures
        combinations@.len() == spec_combinations(vector@, 1, max as nat).len(),
        forall|k: int|
            0 <= k < combinations@.len() ==> (#[trigger] combinations@[k])@ == spec_combinations(
                vector@,
                1,
                max as nat,
            )[k],
{
    all_combinations_of_size(vector, 1, max)
}

} // verus!
