//! Data-parallel radix sort: the element-wise passes of the split (the
//! flags, their negation and the remap of the suffix ranks) run on rayon's
//! worker pool; the scans and the scatter run on the calling thread.
use vstd::prelude::*;
use rayon::iter::{
    IndexedParallelIterator, IntoParallelRefIterator, IntoParallelRefMutIterator,
    ParallelIterator,
};
use crate::SortError;
use crate::engine::{destinations, negate_into, permute, prefix, rank_from_end, set_bit_flag, suffix};
use crate::model::{
    all_at_most, bit_flags, bit_set, bit_width, count, lemma_bit_width_unique,
    lemma_destinations_ready, lemma_lsb_passes, lemma_radix_sort_correct, lemma_rank_vectors,
    lemma_scatter_by, lsb_passes, radix_sorted, rank, sorted, stable_split,
};

verus! {

/// Relies on rayon's `par_iter_mut().zip(par_iter()).for_each`: over two
/// indexed iterators of equal length, the closure runs once on each pair of
/// slots that share an index.
#[verifier::external_body]
fn par_fill_flags(flags: &mut Vec<bool>, input: &[u32], bit: u32)
    requires
        bit < 32,
        old(flags)@.len() == input@.len(),
    ensures
        final(flags)@.len() == input@.len(),
        forall|i: int| 0 <= i < input@.len() ==> final(flags)@[i] == bit_set(input@[i], bit),
{
    flags.par_iter_mut().zip(input.par_iter()).for_each(|(slot, v)| set_bit_flag(slot, *v, bit));
}

/// Relies on rayon's `par_iter_mut().zip(par_iter()).for_each`: over two
/// indexed iterators of equal length, the closure runs once on each pair of
/// slots that share an index.
#[verifier::external_body]
fn par_revert(out: &mut Vec<bool>, flags: &Vec<bool>)
    requires
        old(out)@.len() == flags@.len(),
    ensures
        final(out)@.len() == flags@.len(),
        forall|i: int| 0 <= i < flags@.len() ==> final(out)@[i] == !flags@[i],
{
    out.par_iter_mut().zip(flags.par_iter()).for_each(|(slot, f)| negate_into(slot, *f));
}

/// Relies on rayon's `par_iter_mut().for_each`: the closure runs once on
/// each slot.
#[verifier::external_body]
fn par_remap_suffix(out: &mut Vec<usize>, n: usize)
    requires
        n < usize::MAX,
        forall|i: int| 0 <= i < old(out)@.len() ==> old(out)@[i] <= n,
    ensures
        final(out)@.len() == old(out)@.len(),
        forall|i: int| 0 <= i < old(out)@.len() ==> final(out)@[i] == n + 1 - old(out)@[i],
{
    out.par_iter_mut().for_each(|e| rank_from_end(e, n));
}

/// Scratch buffers of one sort, allocated once and reused by every pass.
pub struct AllocatedVectors {
    pub radix_sort_bits_for_i: Vec<bool>,
    pub split_indexes: Vec<usize>,
    pub revert_result: Vec<bool>,
    pub prefix_result: Vec<usize>,
    pub suffix_result: Vec<usize>,
    pub permute_result: Vec<u32>,
}

impl AllocatedVectors {
    /// Every buffer holds `n` slots.
    pub open spec fn sized(&self, n: nat) -> bool {
        &&& self.radix_sort_bits_for_i@.len() == n
        &&& self.split_indexes@.len() == n
        &&& self.revert_result@.len() == n
        &&& self.prefix_result@.len() == n
        &&& self.suffix_result@.len() == n
        &&& self.permute_result@.len() == n
    }

    pub fn new(size: usize) -> (r: Self)
        ensures
            r.sized(size as nat),
            forall|i: int|
                0 <= i < size ==> !r.radix_sort_bits_for_i@[i] && !r.revert_result@[i]
                    && r.split_indexes@[i] == 0 && r.prefix_result@[i] == 0
                    && r.suffix_result@[i] == 0 && r.permute_result@[i] == 0,
    {
        AllocatedVectors {
            radix_sort_bits_for_i: vec![false; size],
            split_indexes: vec![0; size],
            revert_result: vec![false; size],
            prefix_result: vec![0; size],
            suffix_result: vec![0; size],
            permute_result: vec![0; size],
        }
    }

    /// Stable split of `input` by the flags held in `radix_sort_bits_for_i`,
    /// written to `permute_result`; `split_indexes` receives each element's
    /// destination.
    pub fn split(&mut self, input: &[u32])
        requires
            old(self).sized(input@.len() as nat),
            input@.len() < usize::MAX,
        ensures
            final(self).sized(input@.len() as nat),
            final(self).radix_sort_bits_for_i@ == old(self).radix_sort_bits_for_i@,
            forall|i: int|
                0 <= i < input@.len() ==> final(self).split_indexes@[i] == rank(
                    old(self).radix_sort_bits_for_i@,
                    i,
                ),
            final(self).permute_result@ == stable_split(
                input@,
                old(self).radix_sort_bits_for_i@,
            ),
            forall|i: int|
                0 <= i < input@.len() ==> final(self).revert_result@[i]
                    == !old(self).radix_sort_bits_for_i@[i],
            forall|i: int|
                0 <= i < input@.len() ==> final(self).prefix_result@[i] == count(
                    old(self).radix_sort_bits_for_i@.take(i + 1),
                    false,
                ),
            forall|i: int|
                0 <= i < input@.len() ==> final(self).suffix_result@[i] == input@.len() + 1 - (
                count(old(self).radix_sort_bits_for_i@, true) - count(
                    old(self).radix_sort_bits_for_i@.take(i),
                    true,
                )),
    {
        let n = input.len();
        let ghost f = self.radix_sort_bits_for_i@;
        par_revert(&mut self.revert_result, &self.radix_sort_bits_for_i);
        prefix(&self.revert_result, &mut self.prefix_result);
        suffix(&self.radix_sort_bits_for_i, &mut self.suffix_result);
        proof {
            lemma_rank_vectors(f, self.revert_result@, self.prefix_result@, self.suffix_result@);
        }
        par_remap_suffix(&mut self.suffix_result, n);
        destinations(
            &self.radix_sort_bits_for_i,
            &self.prefix_result,
            &self.suffix_result,
            &mut self.split_indexes,
        );
        proof {
            lemma_destinations_ready(f, self.split_indexes@);
        }
        permute(&self.split_indexes, input, &mut self.permute_result);
        proof {
            lemma_scatter_by(input@, f, self.split_indexes@, self.permute_result@);
        }
    }
}

/// Sorts `input_array` in ascending order, one stable split per bit of
/// `max_value`, least significant first, with the element-wise passes run
/// in parallel. Gives exactly what the sequential sort gives.
///
/// Each element must be at most `max_value` for the result to be sorted:
/// higher bits are not looked at. A `max_value` of 0 is refused.
pub fn radix_sort(input_array: &mut Vec<u32>, max_value: u32) -> (r: Result<(), SortError>)
    requires
        old(input_array)@.len() < usize::MAX,
    ensures
        max_value == 0 ==> r == Err::<(), SortError>(SortError::InvalidBound),
        max_value == 0 ==> final(input_array)@ == old(input_array)@,
        max_value > 0 ==> r == Ok::<(), SortError>(()),
        max_value > 0 ==> final(input_array)@ == radix_sorted(old(input_array)@, max_value),
        max_value > 0 && all_at_most(old(input_array)@, max_value) ==> final(input_array)@.to_multiset()
            == old(input_array)@.to_multiset(),
        max_value > 0 && all_at_most(old(input_array)@, max_value) ==> sorted(final(input_array)@),
{
    if max_value == 0 {
        return Err(SortError::InvalidBound);
    }
    let nb_bits = bit_count(max_value);
    let ghost orig = input_array@;
    let n = input_array.len();
    let mut buffers = AllocatedVectors::new(n);
    let mut i: u32 = 0;
    while i < nb_bits
        invariant
            n < usize::MAX,
            input_array@.len() == n,
            buffers.sized(n as nat),
            nb_bits as nat == bit_width(max_value),
            nb_bits <= 32,
            i <= nb_bits,
            input_array@ == lsb_passes(orig, i as nat),
        decreases nb_bits - i,
    {
        par_fill_flags(&mut buffers.radix_sort_bits_for_i, input_array.as_slice(), i);
        proof {
            assert(buffers.radix_sort_bits_for_i@ =~= bit_flags(input_array@, i));
        }
        buffers.split(input_array.as_slice());
        std::mem::swap(input_array, &mut buffers.permute_result);
        i = i + 1;
    }
    proof {
        lemma_lsb_passes(orig, nb_bits as nat);
        if all_at_most(orig, max_value) {
            lemma_radix_sort_correct(orig, max_value);
        }
    }
    Ok(())
}

/// Number of bits needed to write `x`, from its count of leading zeros.
fn bit_count(x: u32) -> (r: u32)
    ensures
        r as nat == bit_width(x),
        r <= 32,
{
    let lz = x.leading_zeros();
    proof {
        vstd::std_specs::bits::axiom_u32_leading_zeros(x);
        if x > 0 {
            let b = (32 - lz) as u32;
            assert(1 <= b <= 32 && (x >> (b - 1) as u32) & 1u32 != 0u32 ==> (x as u64) >> (b
                - 1) as u64 != 0) by (bit_vector);
            assert(1 <= b <= 32 && x >> b == 0 ==> (x as u64) >> (b as u64) == 0)
                by (bit_vector);
            lemma_bit_width_unique(x, b as u64);
        }
    }
    32 - lz
}

} // verus!
