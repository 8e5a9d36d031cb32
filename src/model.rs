//! Mathematical model of the one-bit split and of the radix sort.
use vstd::prelude::*;

verus! {

/// Number of positions of `f` that hold `b`.
pub open spec fn count(f: Seq<bool>, b: bool) -> nat
    decreases f.len(),
{
    if f.len() == 0 {
        0
    } else {
        count(f.drop_last(), b) + if f.last() == b {
            1nat
        } else {
            0nat
        }
    }
}

/// The elements of `s` whose flag in `f` is `b`, in their order in `s`.
pub open spec fn keep(s: Seq<u32>, f: Seq<bool>, b: bool) -> Seq<u32>
    decreases s.len(),
{
    if s.len() == 0 || f.len() == 0 {
        Seq::empty()
    } else {
        let rest = keep(s.drop_last(), f.drop_last(), b);
        if f.last() == b {
            rest.push(s.last())
        } else {
            rest
        }
    }
}

/// The stable split of `s` by `f`: the elements flagged `false`, then those
/// flagged `true`, each group in its original order.
pub open spec fn stable_split(s: Seq<u32>, f: Seq<bool>) -> Seq<u32> {
    keep(s, f, false) + keep(s, f, true)
}

/// 0-based destination of position `i` in the stable split by `f`: its rank
/// among the `false` elements, or the number of `false` elements plus its
/// rank among the `true` elements.
pub open spec fn rank(f: Seq<bool>, i: int) -> nat {
    if f[i] {
        count(f, false) + count(f.take(i), true)
    } else {
        count(f.take(i), false)
    }
}

/// The low `k` bits of `v`.
pub open spec fn low_bits(v: u32, k: u64) -> u64 {
    (v as u64) & !(0xffff_ffff_ffff_ffffu64 << k)
}

/// Bit `k` of `v` is set.
pub open spec fn bit_set(v: u32, k: u32) -> bool {
    ((v >> k) & 1u32) == 1u32
}

/// The flag of each element of `s`: whether its bit `k` is set.
pub open spec fn bit_flags(s: Seq<u32>, k: u32) -> Seq<bool> {
    Seq::new(s.len(), |i: int| bit_set(s[i], k))
}

/// `s` is in ascending order of the low `k` bits of its elements.
pub open spec fn sorted_by_low(s: Seq<u32>, k: u64) -> bool {
    forall|i: int, j: int| 0 <= i < j < s.len() ==> low_bits(s[i], k) <= low_bits(s[j], k)
}

/// `s` is in ascending order.
pub open spec fn sorted(s: Seq<u32>) -> bool {
    forall|i: int, j: int| 0 <= i < j < s.len() ==> s[i] <= s[j]
}

/// Every element of `s` is at most `m`.
pub open spec fn all_at_most(s: Seq<u32>, m: u32) -> bool {
    forall|i: int| 0 <= i < s.len() ==> s[i] <= m
}

pub proof fn lemma_count_step(f: Seq<bool>, i: int, b: bool)
    requires
        0 <= i < f.len(),
    ensures
        count(f.take(i + 1), b) == count(f.take(i), b) + if f[i] == b {
            1nat
        } else {
            0nat
        },
{
    assert(f.take(i + 1).drop_last() =~= f.take(i));
}

pub proof fn lemma_count_full(f: Seq<bool>, b: bool)
    ensures
        f.take(f.len() as int) =~= f,
        count(f, b) <= f.len(),
        count(f, true) + count(f, false) == f.len(),
    decreases f.len(),
{
    assert(f.take(f.len() as int) =~= f);
    if f.len() > 0 {
        lemma_count_full(f.drop_last(), b);
    }
}

/// Counting over a longer prefix never gives less, and strictly more when
/// the shorter prefix stops just before a position that holds `b`.
pub proof fn lemma_count_mono(f: Seq<bool>, i: int, j: int, b: bool)
    requires
        0 <= i <= j <= f.len(),
    ensures
        count(f.take(i), b) <= count(f.take(j), b),
        i < j && f[i] == b ==> count(f.take(i), b) < count(f.take(j), b),
        count(f.take(j), b) <= j,
    decreases j,
{
    if j > 0 {
        lemma_count_step(f, j - 1, b);
        if i < j {
            lemma_count_mono(f, i, j - 1, b);
        } else {
            lemma_count_mono(f, i - 1, j - 1, b);
        }
    } else {
        assert(f.take(0) =~= Seq::<bool>::empty());
    }
}

/// Every rank below the count of `b` is reached by exactly one position
/// holding `b`.
pub proof fn lemma_count_reached(f: Seq<bool>, b: bool, k: int)
    requires
        0 <= k < count(f, b),
    ensures
        exists|i: int| 0 <= i < f.len() && f[i] == b && count(f.take(i), b) == k,
    decreases f.len(),
{
    let g = f.drop_last();
    let n = f.len() - 1;
    assert(f.take(n) =~= g);
    if f.last() == b && k == count(g, b) {
        assert(f[n] == b && count(f.take(n), b) == k);
    } else {
        lemma_count_reached(g, b, k);
        let i = choose|i: int| 0 <= i < g.len() && g[i] == b && count(g.take(i), b) == k;
        assert(g.take(i) =~= f.take(i));
        assert(f[i] == b && count(f.take(i), b) == k);
    }
}

pub proof fn lemma_keep_len(s: Seq<u32>, f: Seq<bool>, b: bool)
    requires
        s.len() == f.len(),
    ensures
        keep(s, f, b).len() == count(f, b),
    decreases s.len(),
{
    if s.len() > 0 {
        lemma_keep_len(s.drop_last(), f.drop_last(), b);
    }
}

/// An element flagged `b` stands in `keep` at its rank among the elements
/// flagged `b`.
pub proof fn lemma_keep_index(s: Seq<u32>, f: Seq<bool>, b: bool, i: int)
    requires
        s.len() == f.len(),
        0 <= i < s.len(),
        f[i] == b,
    ensures
        count(f.take(i), b) < keep(s, f, b).len(),
        keep(s, f, b)[count(f.take(i), b) as int] == s[i],
    decreases s.len(),
{
    let n = s.len() - 1;
    let g = f.drop_last();
    assert(f.take(n) =~= g);
    lemma_keep_len(s.drop_last(), g, b);
    if i == n {
    } else {
        lemma_keep_index(s.drop_last(), g, b, i);
        assert(g.take(i) =~= f.take(i));
    }
}

/// The two groups of the split hold together exactly the elements of `s`.
pub proof fn lemma_keep_multiset(s: Seq<u32>, f: Seq<bool>)
    requires
        s.len() == f.len(),
    ensures
        stable_split(s, f).to_multiset() =~= s.to_multiset(),
    decreases s.len(),
{
    vstd::seq_lib::lemma_multiset_commutative(keep(s, f, false), keep(s, f, true));
    if s.len() > 0 {
        let t = s.drop_last();
        let g = f.drop_last();
        lemma_keep_multiset(t, g);
        vstd::seq_lib::lemma_multiset_commutative(keep(t, g, false), keep(t, g, true));
        assert(t.push(s.last()) =~= s);
        t.to_multiset_ensures();
        keep(t, g, false).to_multiset_ensures();
        keep(t, g, true).to_multiset_ensures();
    } else {
        assert(stable_split(s, f) =~= s);
    }
}

/// Slot `p` is the destination of some position of `f`.
pub open spec fn reached(f: Seq<bool>, p: int) -> bool {
    exists|i: int| 0 <= i < f.len() && rank(f, i) == p
}

/// Destinations of the split: each position's rank lies in `[0, n)`, no two
/// positions share one, and every slot of `[0, n)` is the rank of some
/// position.
pub proof fn lemma_rank_bijective(f: Seq<bool>)
    ensures
        forall|i: int| 0 <= i < f.len() ==> #[trigger] rank(f, i) < f.len(),
        forall|i: int| 0 <= i < f.len() ==> (f[i] <==> count(f, false) <= #[trigger] rank(f, i)),
        forall|i: int, j: int|
            0 <= i < f.len() && 0 <= j < f.len() && i != j ==> rank(f, i) != rank(f, j),
        forall|p: int| 0 <= p < f.len() ==> #[trigger] reached(f, p),
{
    let n = f.len() as int;
    lemma_count_full(f, true);
    assert forall|i: int| 0 <= i < n implies #[trigger] rank(f, i) < n
        && (f[i] ==> count(f, false) <= rank(f, i)) && (!f[i] ==> rank(f, i) < count(
        f,
        false,
    )) by {
        lemma_count_mono(f, i, n, f[i]);
    }
    assert forall|i: int, j: int|
        0 <= i < n && 0 <= j < n && i != j implies rank(f, i) != rank(f, j) by {
        if f[i] == f[j] {
            if i < j {
                lemma_count_mono(f, i, j, f[i]);
            } else {
                lemma_count_mono(f, j, i, f[i]);
            }
        }
    }
    assert forall|p: int| 0 <= p < n implies #[trigger] reached(f, p) by {
        if p < count(f, false) {
            lemma_count_reached(f, false, p);
            let i = choose|i: int| 0 <= i < n && f[i] == false && count(f.take(i), false) == p;
            assert(rank(f, i) == p);
        } else {
            lemma_count_reached(f, true, p - count(f, false));
            let i = choose|i: int|
                0 <= i < n && f[i] == true && count(f.take(i), true) == p - count(f, false);
            assert(rank(f, i) == p);
        }
    }
}

/// Writing each element of `s` to its rank gives the stable split.
pub proof fn lemma_scatter(s: Seq<u32>, f: Seq<bool>, out: Seq<u32>)
    requires
        s.len() == f.len(),
        out.len() == s.len(),
        forall|i: int| 0 <= i < s.len() ==> out[#[trigger] rank(f, i) as int] == s[i],
    ensures
        out =~= stable_split(s, f),
{
    let n = s.len() as int;
    lemma_rank_bijective(f);
    lemma_keep_len(s, f, false);
    lemma_keep_len(s, f, true);
    lemma_count_full(f, true);
    let t = stable_split(s, f);
    assert forall|p: int| 0 <= p < n implies out[p] == t[p] by {
        assert(reached(f, p));
        let i = choose|i: int| 0 <= i < n && rank(f, i) == p;
        lemma_keep_index(s, f, f[i], i);
    }
}

/// Properties of the low bits that one pass of the sort relies on.
pub proof fn lemma_low_bits_step(v: u32, k: u32)
    requires
        k < 32,
    ensures
        low_bits(v, k as u64) < (1u64 << (k as u64)),
        bit_set(v, k) ==> low_bits(v, (k + 1) as u64) == low_bits(v, k as u64) + (1u64 << (
        k as u64)),
        !bit_set(v, k) ==> low_bits(v, (k + 1) as u64) == low_bits(v, k as u64),
        (1u64 << (k as u64)) <= low_bits(v, k as u64) + (1u64 << (k as u64)),
{
    let kk = k as u64;
    let w = v as u64;
    assert(kk < 32 ==> w & !(0xffff_ffff_ffff_ffffu64 << kk) < (1u64 << kk)) by (bit_vector);
    assert(kk < 32 && w < 0x1_0000_0000 ==> ((w >> kk) & 1u64 == 1u64) ==> w & !(
    0xffff_ffff_ffff_ffffu64 << (kk + 1)) == (w & !(0xffff_ffff_ffff_ffffu64 << kk)) + (1u64
        << kk)) by (bit_vector);
    assert(kk < 32 && w < 0x1_0000_0000 ==> ((w >> kk) & 1u64 != 1u64) ==> w & !(
    0xffff_ffff_ffff_ffffu64 << (kk + 1)) == w & !(0xffff_ffff_ffff_ffffu64 << kk))
        by (bit_vector);
    assert(k < 32 ==> (((v >> k) & 1u32 == 1u32) == (((v as u64) >> (k as u64)) & 1u64
        == 1u64))) by (bit_vector);
}

/// No bit counts before the first pass.
pub proof fn lemma_low_bits_zero(v: u32)
    ensures
        low_bits(v, 0) == 0,
{
    assert((v as u64) & !(0xffff_ffff_ffff_ffffu64 << 0u64) == 0) by (bit_vector);
}

/// Once the passes cover every bit of `m`, the low bits of a value at most
/// `m` are the value itself.
pub proof fn lemma_low_bits_all(v: u32, m: u32, k: u64)
    requires
        v <= m,
        k <= 32,
        (m as u64) >> k == 0,
    ensures
        low_bits(v, k) == v as u64,
{
    assert(v <= m && k <= 32 && (m as u64) >> k == 0 ==> (v as u64) & !(0xffff_ffff_ffff_ffffu64
        << k) == v as u64) by (bit_vector);
}

/// One pass of the radix sort: the stable split of a sequence sorted by its
/// low `k` bits, by bit `k`, is sorted by its low `k + 1` bits.
pub proof fn lemma_split_sorts_one_more_bit(s: Seq<u32>, k: u32)
    requires
        k < 32,
        sorted_by_low(s, k as u64),
    ensures
        sorted_by_low(stable_split(s, bit_flags(s, k)), (k + 1) as u64),
{
    let f = bit_flags(s, k);
    let n = s.len() as int;
    let t = stable_split(s, f);
    let cf = count(f, false) as int;
    lemma_keep_len(s, f, false);
    lemma_keep_len(s, f, true);
    lemma_count_full(f, true);
    lemma_rank_bijective(f);
    assert forall|i: int| 0 <= i < n implies t[#[trigger] rank(f, i) as int] == s[i] by {
        lemma_keep_index(s, f, f[i], i);
    }
    assert forall|p: int, q: int| 0 <= p < q < n implies low_bits(t[p], (k + 1) as u64)
        <= low_bits(t[q], (k + 1) as u64) by {
        assert(reached(f, p) && reached(f, q));
        let i = choose|i: int| 0 <= i < n && rank(f, i) == p;
        let j = choose|j: int| 0 <= j < n && rank(f, j) == q;
        lemma_low_bits_step(s[i], k);
        lemma_low_bits_step(s[j], k);
        if f[i] == f[j] {
            if j <= i {
                lemma_count_mono(f, j, i, f[i]);
            }
            assert(i < j);
        }
    }
}

/// Number of bits needed to write `m`: 0 for 0, else `floor(log2(m)) + 1`.
pub open spec fn bit_width(m: u32) -> nat
    decreases m,
{
    if m == 0 {
        0
    } else {
        1 + bit_width(m / 2)
    }
}

/// The working sequence after the first `k` passes of the radix sort over `s`.
pub open spec fn lsb_passes(s: Seq<u32>, k: nat) -> Seq<u32>
    decreases k,
{
    if k == 0 {
        s
    } else {
        let t = lsb_passes(s, (k - 1) as nat);
        stable_split(t, bit_flags(t, (k - 1) as u32))
    }
}

/// What the radix sort makes of `s` with bound `m`: one pass per bit of `m`.
pub open spec fn radix_sorted(s: Seq<u32>, m: u32) -> Seq<u32> {
    lsb_passes(s, bit_width(m))
}

/// The highest set bit of a nonzero `m` is bit `bit_width(m) - 1`.
pub proof fn lemma_bit_width(m: u32)
    requires
        m > 0,
    ensures
        1 <= bit_width(m) <= 32,
        (m as u64) >> (bit_width(m) as u64) == 0,
        (m as u64) >> ((bit_width(m) - 1) as u64) != 0,
    decreases m,
{
    let w = m as u64;
    if m == 1 {
        assert(bit_width(0) == 0);
        assert(1u64 >> 1u64 == 0 && 1u64 >> 0u64 != 0) by (bit_vector);
    } else {
        let h = m / 2;
        lemma_bit_width(h);
        let c = bit_width(h) as u64;
        assert(h as u64 == w >> 1u64) by (bit_vector)
            requires
                h == m / 2,
                w == m as u64,
        ;
        assert(w < 0x1_0000_0000 && 1 <= c <= 32 && (w >> 1u64) >> (c - 1) as u64 != 0 ==> c <= 31)
            by (bit_vector);
        assert(c <= 31 ==> (w >> 1u64) >> c == w >> (c + 1) as u64) by (bit_vector);
        assert(1 <= c <= 31 ==> (w >> 1u64) >> (c - 1) as u64 == w >> c) by (bit_vector);
    }
}

/// `bit_width(m)` is the only shift that clears `m` while the shift by one
/// less does not.
pub proof fn lemma_bit_width_unique(m: u32, b: u64)
    requires
        m > 0,
        1 <= b <= 32,
        (m as u64) >> b == 0,
        (m as u64) >> (b - 1) as u64 != 0,
    ensures
        b == bit_width(m),
{
    lemma_bit_width(m);
    let c = bit_width(m) as u64;
    let w = m as u64;
    assert(1 <= b <= 32 && 1 <= c <= 32 && w >> b == 0 && w >> (b - 1) as u64 != 0 && w >> c == 0
        && w >> (c - 1) as u64 != 0 ==> b == c) by (bit_vector);
}

/// Reordering a sequence keeps a bound on its elements.
pub proof fn lemma_at_most_permutation(a: Seq<u32>, b: Seq<u32>, m: u32)
    requires
        a.to_multiset() =~= b.to_multiset(),
        all_at_most(a, m),
    ensures
        all_at_most(b, m),
{
    a.to_multiset_ensures();
    b.to_multiset_ensures();
    assert forall|i: int| 0 <= i < b.len() implies b[i] <= m by {
        assert(b.contains(b[i]));
        assert(a.to_multiset() == b.to_multiset());
        assert(a.to_multiset().count(b[i]) > 0);
        assert(a.contains(b[i]));
    }
}

/// After `k` passes the sequence is a reordering of `s`, sorted by its low
/// `k` bits.
pub proof fn lemma_lsb_passes(s: Seq<u32>, k: nat)
    requires
        k <= 32,
    ensures
        lsb_passes(s, k).len() == s.len(),
        lsb_passes(s, k).to_multiset() =~= s.to_multiset(),
        sorted_by_low(lsb_passes(s, k), k as u64),
    decreases k,
{
    if k == 0 {
        assert forall|v: u32| low_bits(v, 0) == 0 by {
            lemma_low_bits_zero(v);
        }
    } else {
        let t = lsb_passes(s, (k - 1) as nat);
        lemma_lsb_passes(s, (k - 1) as nat);
        let f = bit_flags(t, (k - 1) as u32);
        lemma_split_sorts_one_more_bit(t, (k - 1) as u32);
        lemma_keep_multiset(t, f);
        lemma_keep_len(t, f, false);
        lemma_keep_len(t, f, true);
        lemma_count_full(f, true);
    }
}

/// With a bound at least every element, the radix sort gives a reordering
/// of its input in ascending order.
pub proof fn lemma_radix_sort_correct(s: Seq<u32>, m: u32)
    requires
        m > 0,
        all_at_most(s, m),
    ensures
        radix_sorted(s, m).to_multiset() =~= s.to_multiset(),
        sorted(radix_sorted(s, m)),
{
    lemma_bit_width(m);
    let b = bit_width(m);
    let t = radix_sorted(s, m);
    lemma_lsb_passes(s, b);
    lemma_at_most_permutation(s, t, m);
    assert forall|i: int| 0 <= i < t.len() implies low_bits(t[i], b as u64) == t[i] as u64 by {
        lemma_low_bits_all(t[i], m, b as u64);
    }
    assert forall|i: int, j: int| 0 <= i < j < t.len() implies t[i] <= t[j] by {
        assert(low_bits(t[i], b as u64) <= low_bits(t[j], b as u64));
    }
}

/// Sorting an already sorted sequence again, with the same bound, gives it
/// back unchanged.
pub proof fn lemma_radix_sort_idempotent(s: Seq<u32>, m: u32)
    requires
        m > 0,
        all_at_most(s, m),
        sorted(s),
    ensures
        radix_sorted(s, m) == s,
{
    let t = radix_sorted(s, m);
    lemma_radix_sort_correct(s, m);
    let leq = |a: u32, b: u32| a <= b;
    assert(vstd::relations::sorted_by(t, leq));
    assert(vstd::relations::sorted_by(s, leq));
    vstd::seq_lib::lemma_sorted_unique(t, s, leq);
}

/// Counting `true` over the negated flags counts `false` over the flags.
pub proof fn lemma_count_negated(f: Seq<bool>, r: Seq<bool>, k: int)
    requires
        r.len() == f.len(),
        0 <= k <= f.len(),
        forall|i: int| 0 <= i < f.len() ==> r[i] == !f[i],
    ensures
        count(r.take(k), true) == count(f.take(k), false),
    decreases k,
{
    if k > 0 {
        lemma_count_negated(f, r, k - 1);
        lemma_count_step(f, k - 1, false);
        lemma_count_step(r, k - 1, true);
    } else {
        assert(r.take(0) =~= Seq::<bool>::empty());
        assert(f.take(0) =~= Seq::<bool>::empty());
    }
}

/// The split is stable: each element lands at its destination, and of two
/// elements with the same flag the earlier one lands first.
pub proof fn lemma_split_stable(s: Seq<u32>, f: Seq<bool>)
    requires
        s.len() == f.len(),
    ensures
        stable_split(s, f).len() == s.len(),
        forall|i: int| 0 <= i < s.len() ==> stable_split(s, f)[#[trigger] rank(f, i) as int] == s[i],
        forall|i: int, j: int|
            0 <= i < j < s.len() && f[i] == f[j] ==> #[trigger] rank(f, i) < #[trigger] rank(f, j),
{
    lemma_keep_len(s, f, false);
    lemma_keep_len(s, f, true);
    lemma_count_full(f, true);
    assert forall|i: int| 0 <= i < s.len() implies stable_split(s, f)[#[trigger] rank(f, i) as int]
        == s[i] by {
        lemma_keep_index(s, f, f[i], i);
    }
    assert forall|i: int, j: int| 0 <= i < j < s.len() && f[i] == f[j] implies #[trigger] rank(f, i)
        < #[trigger] rank(f, j) by {
        lemma_count_mono(f, i, j, f[i]);
    }
}

/// No two of the first `c` destinations in `idx` are equal.
pub open spec fn distinct_prefix(idx: Seq<usize>, c: int) -> bool {
    forall|a: int, b: int| 0 <= a < b < c ==> idx[a] != idx[b]
}

/// The rank vectors of a split before the remap: prefix counts of `true`
/// over the negated flags count the `false` flags, and no suffix count
/// exceeds the length.
pub proof fn lemma_rank_vectors(f: Seq<bool>, rev: Seq<bool>, pre: Seq<usize>, suf: Seq<usize>)
    requires
        rev.len() == f.len(),
        pre.len() >= f.len(),
        suf.len() >= f.len(),
        forall|i: int| 0 <= i < f.len() ==> rev[i] == !f[i],
        forall|i: int| 0 <= i < f.len() ==> pre[i] == count(rev.take(i + 1), true),
        forall|i: int| 0 <= i < f.len() ==> suf[i] + count(f.take(i), true) == count(f, true),
    ensures
        forall|i: int| 0 <= i < f.len() ==> pre[i] == count(f.take(i + 1), false),
        forall|i: int| 0 <= i < f.len() ==> suf[i] <= f.len(),
{
    lemma_count_full(f, true);
    assert forall|i: int| 0 <= i < f.len() implies pre[i] == count(f.take(i + 1), false) by {
        lemma_count_negated(f, rev, i + 1);
    }
    assert forall|i: int| 0 <= i < f.len() implies suf[i] <= f.len() by {
        lemma_count_mono(f, i, f.len() as int, true);
    }
}

/// Destinations equal to the ranks lie in `[0, n)` and are distinct.
pub proof fn lemma_destinations_ready(f: Seq<bool>, idx: Seq<usize>)
    requires
        idx.len() == f.len(),
        forall|i: int| 0 <= i < f.len() ==> idx[i] == rank(f, i),
    ensures
        forall|i: int| 0 <= i < idx.len() ==> idx[i] < idx.len(),
        distinct_prefix(idx, idx.len() as int),
{
    lemma_rank_bijective(f);
    assert forall|i: int| 0 <= i < idx.len() implies idx[i] < idx.len() by {
        assert(idx[i] == rank(f, i));
    }
    assert forall|a: int, b: int| 0 <= a < b < idx.len() implies idx[a] != idx[b] by {
        assert(idx[a] == rank(f, a));
        assert(idx[b] == rank(f, b));
    }
}

/// Scattering `s` to destinations equal to the ranks gives the stable split.
pub proof fn lemma_scatter_by(s: Seq<u32>, f: Seq<bool>, idx: Seq<usize>, out: Seq<u32>)
    requires
        s.len() == f.len(),
        idx.len() == f.len(),
        out.len() == f.len(),
        forall|i: int| 0 <= i < f.len() ==> idx[i] == rank(f, i),
        forall|i: int| 0 <= i < f.len() ==> out[idx[i] as int] == s[i],
    ensures
        out == stable_split(s, f),
{
    assert forall|i: int| 0 <= i < s.len() implies out[#[trigger] rank(f, i) as int] == s[i] by {
        assert(idx[i] == rank(f, i));
    }
    lemma_scatter(s, f, out);
}

} // verus!
