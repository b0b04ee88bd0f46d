//! Planning of the acceleration-structure builds: the sizes to allocate and
//! the batches in which bottom-level structures are built.

use vstd::prelude::*;

verus! {

/// Bit of the build flags that allows compacting the built structure.
pub const ALLOW_COMPACTION: u32 = 2;

/// Bytes a bottom-level build may submit before its batch is sent off.
pub const BATCH_LIMIT: u64 = 256_000_000;

/// The memory a bottom-level acceleration structure build needs.
#[derive(Clone, Copy, Debug)]
pub struct BuildSizes {
    pub acceleration_structure_size: u64,
    pub build_scratch_size: u64,
}

/// One bottom-level build: its build flags and the sizes the driver
/// reported for it.
#[derive(Clone, Copy, Debug)]
pub struct BuildInput {
    pub flags: u32,
    pub sizes: BuildSizes,
}

/// Sum of the structure sizes of the first `n` builds.
pub open spec fn structure_size_sum(inputs: Seq<BuildInput>, n: int) -> int
    decreases n,
{
    if n <= 0 {
        0
    } else {
        structure_size_sum(inputs, n - 1) + inputs[n - 1].sizes.acceleration_structure_size
    }
}

/// Sum of the scratch sizes of the first `n` builds.
pub open spec fn scratch_size_sum(inputs: Seq<BuildInput>, n: int) -> int
    decreases n,
{
    if n <= 0 {
        0
    } else {
        scratch_size_sum(inputs, n - 1) + inputs[n - 1].sizes.build_scratch_size
    }
}

/// How many of the first `n` builds allow compaction.
pub open spec fn compaction_count(inputs: Seq<BuildInput>, n: int) -> int
    decreases n,
{
    if n <= 0 {
        0
    } else {
        compaction_count(inputs, n - 1) + if inputs[n - 1].flags & ALLOW_COMPACTION
            == ALLOW_COMPACTION {
            1int
        } else {
            0int
        }
    }
}

proof fn lemma_sums_grow(inputs: Seq<BuildInput>, m: int, n: int)
    requires
        0 <= m <= n <= inputs.len(),
    ensures
        structure_size_sum(inputs, m) <= structure_size_sum(inputs, n),
        scratch_size_sum(inputs, m) <= scratch_size_sum(inputs, n),
        0 <= compaction_count(inputs, m) <= compaction_count(inputs, n) <= n,
    decreases n,
{
    if m < n {
        lemma_sums_grow(inputs, m, n - 1);
    } else if n > 0 {
        lemma_sums_grow(inputs, n - 1, n - 1);
    }
}

/// The totals add up the builds' sizes: each of the first `n` builds counts
/// in full, so any two of them together stay within the total, and builds
/// of size 0 add nothing.
pub proof fn lemma_size_sums_add_up(inputs: Seq<BuildInput>, n: int)
    requires
        0 <= n <= inputs.len(),
    ensures
        forall|i: int, j: int|
            0 <= i < j < n ==> #[trigger] inputs[i].sizes.acceleration_structure_size
                + #[trigger] inputs[j].sizes.acceleration_structure_size <= structure_size_sum(inputs, n),
        forall|i: int, j: int|
            0 <= i < j < n ==> #[trigger] inputs[i].sizes.build_scratch_size
                + #[trigger] inputs[j].sizes.build_scratch_size <= scratch_size_sum(inputs, n),
        forall|i: int| 0 <= i < n ==> #[trigger] inputs[i].sizes.acceleration_structure_size <= structure_size_sum(inputs, n),
        forall|i: int| 0 <= i < n ==> #[trigger] inputs[i].sizes.build_scratch_size <= scratch_size_sum(inputs, n),
        (forall|i: int| 0 <= i < n ==> #[trigger] inputs[i].sizes.acceleration_structure_size == 0)
            ==> structure_size_sum(inputs, n) == 0,
        (forall|i: int| 0 <= i < n ==> #[trigger] inputs[i].sizes.build_scratch_size == 0)
            ==> scratch_size_sum(inputs, n) == 0,
    decreases n,
{
    if n > 0 {
        lemma_size_sums_add_up(inputs, n - 1);
        lemma_sums_grow(inputs, n - 1, n - 1);
        assert(structure_size_sum(inputs, n - 1) >= 0) by {
            lemma_sums_grow(inputs, 0, n - 1);
        }
        assert(scratch_size_sum(inputs, n - 1) >= 0) by {
            lemma_sums_grow(inputs, 0, n - 1);
        }
    }
}

/// The number of the first `n` builds that allow compaction is the number of
/// those whose flags have the compaction bit set, whatever other bits they
/// have; it is 0 when none of them has the bit.
pub proof fn lemma_compaction_count(inputs: Seq<BuildInput>, n: int)
    requires
        0 <= n <= inputs.len(),
    ensures
        compaction_count(inputs, n) == inputs.take(n).filter(
            |b: BuildInput| b.flags & ALLOW_COMPACTION != 0,
        ).len(),
        (forall|i: int| 0 <= i < n ==> #[trigger] inputs[i].flags & ALLOW_COMPACTION == 0)
            ==> compaction_count(inputs, n) == 0,
        0 <= compaction_count(inputs, n) <= n,
    decreases n,
{
    reveal(Seq::filter);
    if n > 0 {
        lemma_compaction_count(inputs, n - 1);
        assert(inputs.take(n).drop_last() =~= inputs.take(n - 1));
        assert(inputs.take(n).last() == inputs[n - 1]);
        let f = inputs[n - 1].flags;
        assert((f & 2u32 == 2u32) == (f & 2u32 != 0)) by (bit_vector);
        assert((f & 2u32 == 0) == (f & 2u32 != 2u32)) by (bit_vector);
    }
}

/// The totals over all builds: the scratch size (the sum of every build's
/// scratch size), the sum of the structure sizes, and how many builds allow
/// compaction.
pub fn build_input_totals(inputs: &Vec<BuildInput>) -> (totals: (u64, u64, u64))
    requires
        structure_size_sum(inputs@, inputs.len() as int) <= u64::MAX,
        scratch_size_sum(inputs@, inputs.len() as int) <= u64::MAX,
    ensures
        totals.0 == scratch_size_sum(inputs@, inputs.len() as int),
        totals.1 == structure_size_sum(inputs@, inputs.len() as int),
        totals.2 == compaction_count(inputs@, inputs.len() as int),
        totals.2 == inputs@.filter(|b: BuildInput| b.flags & ALLOW_COMPACTION != 0).len(),
{
    let mut max_scratch_size: u64 = 0;
    let mut as_total_size: u64 = 0;
    let mut compaction_size: u64 = 0;
    let mut i: usize = 0;
    while i < inputs.len()
        invariant
            i <= inputs.len(),
            structure_size_sum(inputs@, inputs.len() as int) <= u64::MAX,
            scratch_size_sum(inputs@, inputs.len() as int) <= u64::MAX,
            max_scratch_size == scratch_size_sum(inputs@, i as int),
            as_total_size == structure_size_sum(inputs@, i as int),
            compaction_size == compaction_count(inputs@, i as int),
        decreases inputs.len() - i,
    {
        proof {
            lemma_sums_grow(inputs@, i + 1, inputs.len() as int);
        }
        let sizes = inputs[i].sizes;
        as_total_size += sizes.acceleration_structure_size;
        max_scratch_size += sizes.build_scratch_size;
        if inputs[i].flags & ALLOW_COMPACTION == ALLOW_COMPACTION {
            compaction_size += 1;
        }
        i += 1;
    }
    proof {
        lemma_compaction_count(inputs@, inputs.len() as int);
        assert(inputs@.take(inputs.len() as int) =~= inputs@);
    }
    (max_scratch_size, as_total_size, compaction_size)
}

/// The building of the first `i + 1` structures is submitted after
/// structure `i`: their sizes reach `batch_limit`, or `i` is the last one.
pub open spec fn submits_after(inputs: Seq<BuildInput>, batch_limit: u64, i: int) -> bool {
    structure_size_sum(inputs, i + 1) >= batch_limit || i == inputs.len() - 1
}

/// After which structures a batch of builds is submitted, in increasing
/// order.  Each batch builds every structure from the first one up to the
/// structure it follows.
pub fn blas_batch_ends(inputs: &Vec<BuildInput>, batch_limit: u64) -> (ends: Vec<usize>)
    requires
        structure_size_sum(inputs@, inputs.len() as int) <= u64::MAX,
    ensures
        forall|k: int| 0 <= k < ends.len() ==> #[trigger] ends[k] < inputs.len(),
        forall|k: int, l: int| 0 <= k < l < ends.len() ==> ends[k] < ends[l],
        forall|i: int|
            0 <= i < inputs.len() ==> (ends@.contains(i as usize) <==> submits_after(
                inputs@,
                batch_limit,
                i,
            )),
        inputs.len() > 0 ==> ends.len() > 0 && ends[ends.len() - 1] == inputs.len() - 1,
{
    let mut ends: Vec<usize> = Vec::new();
    let mut batch_size: u64 = 0;
    let mut i: usize = 0;
    while i < inputs.len()
        invariant
            i <= inputs.len(),
            structure_size_sum(inputs@, inputs.len() as int) <= u64::MAX,
            batch_size == structure_size_sum(inputs@, i as int),
            forall|k: int| 0 <= k < ends.len() ==> #[trigger] ends[k] < i,
            forall|k: int, l: int| 0 <= k < l < ends.len() ==> ends[k] < ends[l],
            forall|j: int|
                0 <= j < i ==> (ends@.contains(j as usize) <==> submits_after(
                    inputs@,
                    batch_limit,
                    j,
                )),
        decreases inputs.len() - i,
    {
        proof {
            lemma_sums_grow(inputs@, i + 1, inputs.len() as int);
        }
        batch_size += inputs[i].sizes.acceleration_structure_size;
        let ghost before = ends@;
        if batch_size >= batch_limit || i == inputs.len() - 1 {
            ends.push(i);
            proof {
                assert(ends@[ends.len() - 1] == i);
                assert forall|j: int| 0 <= j < i implies (#[trigger] ends@.contains(j as usize)
                    <==> before.contains(j as usize)) by {
                    if before.contains(j as usize) {
                        let k = choose|k: int| 0 <= k < before.len() && before[k] == j as usize;
                        assert(ends@[k] == j as usize);
                    }
                    if ends@.contains(j as usize) {
                        let k = choose|k: int| 0 <= k < ends.len() && ends@[k] == j as usize;
                        assert(k < before.len());
                    }
                }
            }
        } else {
            proof {
                assert(!before.contains(i)) by {
                    if before.contains(i) {
                        let k = choose|k: int| 0 <= k < before.len() && before[k] == i;
                    }
                }
            }
        }
        i += 1;
    }
    proof {
        if inputs.len() > 0 {
            let last = (inputs.len() - 1) as int;
            assert(submits_after(inputs@, batch_limit, last));
            assert(ends@.contains(last as usize));
            let k = choose|k: int| 0 <= k < ends.len() && ends@[k] == last as usize;
            if k < ends.len() - 1 {
                assert(ends[k] < ends[ends.len() - 1]);
            }
        }
    }
    ends
}

} // verus!
