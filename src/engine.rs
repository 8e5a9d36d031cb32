//! The passes of the one-bit split, each over buffers sized to the input.
use vstd::prelude::*;
use crate::model::{distinct_prefix, bit_flags, bit_set, count, lemma_count_full, lemma_count_mono, lemma_count_step, rank};

verus! {

/// Stores in `slot` whether bit `bit` of `v` is set.
pub fn set_bit_flag(slot: &mut bool, v: u32, bit: u32)
    requires
        bit < 32,
    ensures
        *final(slot) == bit_set(v, bit),
{
    *slot = ((v >> bit) & 1) == 1;
}

/// Stores the negation of `flag` in `slot`.
pub fn negate_into(slot: &mut bool, flag: bool)
    ensures
        *final(slot) == !flag,
{
    *slot = !flag;
}

/// Turns a count of `true` elements from a position to the end into the
/// 1-based forward rank of that position among the `true` elements.
pub fn rank_from_end(e: &mut usize, n: usize)
    requires
        *old(e) <= n,
        n < usize::MAX,
    ensures
        *final(e) == n + 1 - *old(e),
{
    *e = (n + 1) - *e;
}

/// Flags of one pass: whether bit `bit` of each element is set.
pub fn fill_flags(input: &[u32], bit: u32, flags: &mut Vec<bool>)
    requires
        bit < 32,
        old(flags)@.len() == input@.len(),
    ensures
        final(flags)@ == bit_flags(input@, bit),
{
    let n = input.len();
    let mut j: usize = 0;
    while j < n
        invariant
            n == input@.len(),
            flags@.len() == n,
            bit < 32,
            j <= n,
            forall|k: int| 0 <= k < j ==> flags@[k] == bit_set(input@[k], bit),
        decreases n - j,
    {
        flags.set(j, ((input[j] >> bit) & 1) == 1);
        j = j + 1;
    }
    assert(flags@ =~= bit_flags(input@, bit));
}

/// Element-wise negation of `flags` into `out`.
pub fn revert(flags: &Vec<bool>, out: &mut Vec<bool>)
    requires
        old(out)@.len() == flags@.len(),
    ensures
        final(out)@.len() == flags@.len(),
        forall|i: int| 0 <= i < flags@.len() ==> final(out)@[i] == !flags@[i],
{
    let n = flags.len();
    let mut i: usize = 0;
    while i < n
        invariant
            n == flags@.len(),
            out@.len() == n,
            i <= n,
            forall|k: int| 0 <= k < i ==> out@[k] == !flags@[k],
        decreases n - i,
    {
        out.set(i, !flags[i]);
        i = i + 1;
    }
}

/// Inclusive prefix counts of `true` in `r`: `out[i]` counts `r[0..=i]`.
/// Slots of `out` past the length of `r` are left as they are.
pub fn prefix(r: &Vec<bool>, out: &mut Vec<usize>)
    requires
        old(out)@.len() >= r@.len(),
    ensures
        final(out)@.len() == old(out)@.len(),
        forall|i: int| 0 <= i < r@.len() ==> final(out)@[i] == count(r@.take(i + 1), true),
        forall|i: int| r@.len() <= i < old(out)@.len() ==> final(out)@[i] == old(out)@[i],
{
    let ghost before = out@;
    let n = r.len();
    let mut c: usize = 0;
    let mut i: usize = 0;
    proof {
        assert(r@.take(0) =~= Seq::<bool>::empty());
    }
    while i < n
        invariant
            n == r@.len(),
            out@.len() == before.len(),
            before.len() >= n,
            i <= n,
            c == count(r@.take(i as int), true),
            forall|k: int| 0 <= k < i ==> out@[k] == count(r@.take(k + 1), true),
            forall|k: int| n <= k < before.len() ==> out@[k] == before[k],
        decreases n - i,
    {
        proof {
            lemma_count_step(r@, i as int, true);
            lemma_count_mono(r@, i as int, i as int, true);
        }
        if r[i] {
            c = c + 1;
        }
        out.set(i, c);
        i = i + 1;
    }
}

/// Inclusive suffix counts of `true` in `f`: `out[i]` counts `f[i..n]`,
/// which is the count over all of `f` less the count over `f[0..i]`.
/// Slots of `out` past the length of `f` are left as they are.
pub fn suffix(f: &Vec<bool>, out: &mut Vec<usize>)
    requires
        old(out)@.len() >= f@.len(),
    ensures
        final(out)@.len() == old(out)@.len(),
        forall|i: int|
            0 <= i < f@.len() ==> final(out)@[i] + count(f@.take(i), true) == count(f@, true),
        forall|i: int| f@.len() <= i < old(out)@.len() ==> final(out)@[i] == old(out)@[i],
{
    let ghost before = out@;
    let n = f.len();
    let mut c: usize = 0;
    let mut i: usize = n;
    proof {
        lemma_count_full(f@, true);
    }
    while i > 0
        invariant
            n == f@.len(),
            out@.len() == before.len(),
            before.len() >= n,
            i <= n,
            c + count(f@.take(i as int), true) == count(f@, true),
            count(f@, true) <= n,
            forall|k: int| i <= k < n ==> out@[k] + count(f@.take(k), true) == count(f@, true),
            forall|k: int| n <= k < before.len() ==> out@[k] == before[k],
        decreases i,
    {
        i = i - 1;
        proof {
            lemma_count_step(f@, i as int, true);
        }
        if f[i] {
            c = c + 1;
        }
        out.set(i, c);
    }
}

/// Replaces each suffix count `e` by `n + 1 - e`.
pub fn remap_suffix(out: &mut Vec<usize>, n: usize)
    requires
        n < usize::MAX,
        forall|i: int| 0 <= i < old(out)@.len() ==> old(out)@[i] <= n,
    ensures
        final(out)@.len() == old(out)@.len(),
        forall|i: int| 0 <= i < old(out)@.len() ==> final(out)@[i] == n + 1 - old(out)@[i],
{
    let ghost before = out@;
    let len = out.len();
    let mut i: usize = 0;
    while i < len
        invariant
            len == before.len(),
            out@.len() == len,
            n < usize::MAX,
            i <= len,
            forall|k: int| 0 <= k < len ==> before[k] <= n,
            forall|k: int| 0 <= k < i ==> out@[k] == n + 1 - before[k],
            forall|k: int| i <= k < len ==> out@[k] == before[k],
        decreases len - i,
    {
        let mut e = out[i];
        assert(e == before[i as int]);
        rank_from_end(&mut e, n);
        out.set(i, e);
        i = i + 1;
    }
}

/// Destination of each position: its prefix rank less one where its flag
/// is `false`, its remapped suffix rank less one where it is `true`.
pub fn destinations(f: &Vec<bool>, pre: &Vec<usize>, suf: &Vec<usize>, idx: &mut Vec<usize>)
    requires
        pre@.len() == f@.len(),
        suf@.len() == f@.len(),
        old(idx)@.len() == f@.len(),
        forall|i: int| 0 <= i < f@.len() ==> pre@[i] == count(f@.take(i + 1), false),
        forall|i: int|
            0 <= i < f@.len() ==> suf@[i] == f@.len() + 1 - (count(f@, true) - count(
                f@.take(i),
                true,
            )),
    ensures
        final(idx)@.len() == f@.len(),
        forall|i: int| 0 <= i < f@.len() ==> final(idx)@[i] == rank(f@, i),
{
    let n = f.len();
    let mut i: usize = 0;
    proof {
        lemma_count_full(f@, true);
    }
    while i < n
        invariant
            n == f@.len(),
            pre@.len() == n,
            suf@.len() == n,
            idx@.len() == n,
            i <= n,
            count(f@, true) + count(f@, false) == n,
            forall|k: int| 0 <= k < n ==> pre@[k] == count(f@.take(k + 1), false),
            forall|k: int|
                0 <= k < n ==> suf@[k] == n + 1 - (count(f@, true) - count(f@.take(k), true)),
            forall|k: int| 0 <= k < i ==> idx@[k] == rank(f@, k),
        decreases n - i,
    {
        proof {
            lemma_count_step(f@, i as int, false);
            lemma_count_mono(f@, i as int, n as int, true);
        }
        if f[i] {
            idx.set(i, suf[i] - 1);
        } else {
            idx.set(i, pre[i] - 1);
        }
        i = i + 1;
    }
}

/// Scatter: for each `i` below the shortest of the three lengths, writes
/// `input[i]` to slot `idx[i]` of `out`. Where those destinations are
/// distinct, each such `input[i]` ends in its slot.
pub fn permute(idx: &Vec<usize>, input: &[u32], out: &mut Vec<u32>)
    requires
        forall|i: int|
            0 <= i < idx@.len() && i < input@.len() && i < old(out)@.len() ==> idx@[i] < old(
                out,
            )@.len(),
    ensures
        final(out)@.len() == old(out)@.len(),
        ({
            let c = vstd::math::min(
                vstd::math::min(idx@.len() as int, input@.len() as int),
                old(out)@.len() as int,
            );
            distinct_prefix(idx@, c) ==> forall|i: int|
                0 <= i < c ==> final(out)@[idx@[i] as int] == input@[i]
        }),
{
    let mut c = idx.len();
    if input.len() < c {
        c = input.len();
    }
    if out.len() < c {
        c = out.len();
    }
    let m = out.len();
    let mut i: usize = 0;
    while i < c
        invariant
            c == vstd::math::min(
                vstd::math::min(idx@.len() as int, input@.len() as int),
                m as int,
            ),
            out@.len() == m,
            i <= c,
            forall|k: int| 0 <= k < c ==> idx@[k] < m,
            distinct_prefix(idx@, c as int) ==> forall|k: int|
                0 <= k < i ==> out@[idx@[k] as int] == input@[k],
        decreases c - i,
    {
        out.set(idx[i], input[i]);
        i = i + 1;
    }
}

} // verus!
