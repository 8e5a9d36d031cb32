//! Sequential radix sort: every pass of the split runs on the calling thread.
use vstd::prelude::*;
use crate::SortError;
use crate::engine::{destinations, fill_flags, permute, prefix, remap_suffix, revert, suffix};
use crate::model::{
    all_at_most, bit_width, count, lemma_bit_width_unique, lemma_destinations_ready,
    lemma_lsb_passes, lemma_radix_sort_correct, lemma_rank_vectors, lemma_scatter_by, lsb_passes,
    radix_sorted, rank, sorted, stable_split,
};

verus! {

/// Scratch buffers of one sort, allocated once and reused by every pass.
pub struct AllocatedVectors {
    pub radix_sort_bits_for_i: Vec<bool>,
    pub split_indexes: Vec<usize>,
    pub revert_result: Vec<bool>,
    pub prefix_result: Vec<usize>,
    pub suffix_result: Vec<usize>,
    pub permute_result: Vec<u32>,
}

impl AllocatedVectors {
    /// Every buffer holds `n` slots.
    pub open spec fn sized(&self, n: nat) -> bool {
        &&& self.radix_sort_bits_for_i@.len() == n
        &&& self.split_indexes@.len() == n
        &&& self.revert_result@.len() == n
        &&& self.prefix_result@.len() == n
        &&& self.suffix_result@.len() == n
        &&& self.permute_result@.len() == n
    }

    pub fn new(size: usize) -> (r: Self)
        ensures
            r.sized(size as nat),
            forall|i: int|
                0 <= i < size ==> !r.radix_sort_bits_for_i@[i] && !r.revert_result@[i]
                    && r.split_indexes@[i] == 0 && r.prefix_result@[i] == 0
                    && r.suffix_result@[i] == 0 && r.permute_result@[i] == 0,
    {
        AllocatedVectors {
            radix_sort_bits_for_i: vec![false; size],
            split_indexes: vec![0; size],
            revert_result: vec![false; size],
            prefix_result: vec![0; size],
            suffix_result: vec![0; size],
            permute_result: vec![0; size],
        }
    }

    /// Stable split of `input` by the flags held in `radix_sort_bits_for_i`,
    /// written to `permute_result`; `split_indexes` receives each element's
    /// destination.
    pub fn split(&mut self, input: &[u32])
        requires
            old(self).sized(input@.len() as nat),
            input@.len() < usize::MAX,
        ensures
            final(self).sized(input@.len() as nat),
            final(self).radix_sort_bits_for_i@ == old(self).radix_sort_bits_for_i@,
            forall|i: int|
                0 <= i < input@.len() ==> final(self).split_indexes@[i] == rank(
                    old(self).radix_sort_bits_for_i@,
                    i,
                ),
            final(self).permute_result@ == stable_split(
                input@,
                old(self).radix_sort_bits_for_i@,
            ),
            forall|i: int|
                0 <= i < input@.len() ==> final(self).revert_result@[i]
                    == !old(self).radix_sort_bits_for_i@[i],
            forall|i: int|
                0 <= i < input@.len() ==> final(self).prefix_result@[i] == count(
                    old(self).radix_sort_bits_for_i@.take(i + 1),
                    false,
                ),
            forall|i: int|
                0 <= i < input@.len() ==> final(self).suffix_result@[i] == input@.len() + 1 - (
                count(old(self).radix_sort_bits_for_i@, true) - count(
                    old(self).radix_sort_bits_for_i@.take(i),
                    true,
                )),
    {
        let n = input.len();
        let ghost f = self.radix_sort_bits_for_i@;
        revert(&self.radix_sort_bits_for_i, &mut self.revert_result);
        prefix(&self.revert_result, &mut self.prefix_result);
        suffix(&self.radix_sort_bits_for_i, &mut self.suffix_result);
        proof {
            lemma_rank_vectors(f, self.revert_result@, self.prefix_result@, self.suffix_result@);
        }
        remap_suffix(&mut self.suffix_result, n);
        destinations(
            &self.radix_sort_bits_for_i,
            &self.prefix_result,
            &self.suffix_result,
            &mut self.split_indexes,
        );
        proof {
            lemma_destinations_ready(f, self.split_indexes@);
        }
        permute(&self.split_indexes, input, &mut self.permute_result);
        proof {
            lemma_scatter_by(input@, f, self.split_indexes@, self.permute_result@);
        }
    }
}

/// Stable split of `input`: the elements whose flag is `false`, then those
/// whose flag is `true`, each group in its original order.
pub fn split(input: &[u32], flags: &[bool]) -> (r: Result<Vec<u32>, SortError>)
    requires
        input@.len() < usize::MAX,
    ensures
        flags@.len() != input@.len() <==> r == Err::<Vec<u32>, SortError>(
            SortError::LengthMismatch,
        ),
        flags@.len() == input@.len() ==> r is Ok,
        r is Ok ==> r->Ok_0@ == stable_split(input@, flags@),
{
    if flags.len() != input.len() {
        return Err(SortError::LengthMismatch);
    }
    let n = input.len();
    let mut buffers = AllocatedVectors::new(n);
    let mut i: usize = 0;
    while i < n
        invariant
            n == input@.len(),
            n == flags@.len(),
            buffers.sized(n as nat),
            i <= n,
            forall|k: int| 0 <= k < i ==> buffers.radix_sort_bits_for_i@[k] == flags@[k],
        decreases n - i,
    {
        buffers.radix_sort_bits_for_i.set(i, flags[i]);
        i = i + 1;
    }
    proof {
        assert(buffers.radix_sort_bits_for_i@ =~= flags@);
    }
    buffers.split(input);
    Ok(buffers.permute_result)
}

/// Sorts `input_array` in ascending order, one stable split per bit of
/// `max_value`, least significant first.
///
/// Each element must be at most `max_value` for the result to be sorted:
/// higher bits are not looked at. A `max_value` of 0 is refused.
pub fn radix_sort(input_array: &mut Vec<u32>, max_value: u32) -> (r: Result<(), SortError>)
    requires
        old(input_array)@.len() < usize::MAX,
    ensures
        max_value == 0 ==> r == Err::<(), SortError>(SortError::InvalidBound),
        max_value == 0 ==> final(input_array)@ == old(input_array)@,
        max_value > 0 ==> r == Ok::<(), SortError>(()),
        max_value > 0 ==> final(input_array)@ == radix_sorted(old(input_array)@, max_value),
        max_value > 0 && all_at_most(old(input_array)@, max_value) ==> final(input_array)@.to_multiset()
            == old(input_array)@.to_multiset(),
        max_value > 0 && all_at_most(old(input_array)@, max_value) ==> sorted(final(input_array)@),
{
    let nb_bits = match log2(max_value) {
        Ok(b) => b + 1,
        Err(()) => {
            return Err(SortError::InvalidBound);
        },
    };
    let ghost orig = input_array@;
    let n = input_array.len();
    let mut buffers = AllocatedVectors::new(n);
    let mut i: u32 = 0;
    while i < nb_bits
        invariant
            n < usize::MAX,
            input_array@.len() == n,
            buffers.sized(n as nat),
            nb_bits as nat == bit_width(max_value),
            nb_bits <= 32,
            i <= nb_bits,
            input_array@ == lsb_passes(orig, i as nat),
        decreases nb_bits - i,
    {
        fill_flags(input_array.as_slice(), i, &mut buffers.radix_sort_bits_for_i);
        buffers.split(input_array.as_slice());
        std::mem::swap(input_array, &mut buffers.permute_result);
        i = i + 1;
    }
    proof {
        lemma_lsb_passes(orig, nb_bits as nat);
        if all_at_most(orig, max_value) {
            lemma_radix_sort_correct(orig, max_value);
        }
    }
    Ok(())
}

/// Floor of the base-2 logarithm of `x`; `x == 0` has none.
fn log2(x: u32) -> (r: Result<u32, ()>)
    ensures
        x == 0 <==> r is Err,
        r is Ok ==> r->Ok_0 < 32 && r->Ok_0 + 1 == bit_width(x),
{
    if x == 0 {
        return Err(());
    }
    let mut y: u32 = x;
    let mut result: u32 = 0;
    assert((x as u64) >> 0u64 == x as u64) by (bit_vector);
    while y > 1
        invariant
            (x as u64) >> (result as u64) == y as u64,
            y >= 1,
            result <= 31,
        decreases y,
    {
        let ghost w = x as u64;
        let ghost r0 = result as u64;
        assert(w < 0x1_0000_0000 && r0 <= 31 && w >> r0 >= 2 ==> r0 <= 30) by (bit_vector);
        assert(r0 <= 31 ==> (w >> r0) >> 1u64 == w >> (r0 + 1) as u64) by (bit_vector);
        assert(y >> 1u32 == y / 2) by (bit_vector);
        y = y >> 1;
        result = result + 1;
    }
    proof {
        let w = x as u64;
        let r0 = result as u64;
        assert(w >> r0 == 1 ==> w >> (r0 + 1) as u64 == 0) by (bit_vector);
        lemma_bit_width_unique(x, (r0 + 1) as u64);
    }
    Ok(result)
}

} // verus!
