//! Laying the regions of a guest out in the memory image, one after the other.

use crate::batch::bitmap_covers;
use vstd::prelude::*;

verus! {

/// Sizes as mathematical integers.
pub open spec fn ints(sizes: Seq<u64>) -> Seq<int> {
    Seq::new(sizes.len(), |i: int| sizes[i] as int)
}

/// The sum of sizes.
pub open spec fn total(sizes: Seq<int>) -> int
    decreases sizes.len(),
{
    if sizes.len() == 0 {
        0
    } else {
        total(sizes.drop_last()) + sizes.last()
    }
}

/// Whether regions of these sizes, laid out one after the other from byte zero,
/// all start on a page boundary.
pub open spec fn sizes_aligned(sizes: Seq<int>, page_size: int) -> bool {
    forall|i: int| 0 <= i < sizes.len() ==> #[trigger] total(sizes.take(i)) % page_size == 0
}

/// Whether there is a bitmap for every region, in order, with a bit for every page,
/// whole or partial, of the region.
pub open spec fn slots_cover_sizes(sizes: Seq<int>, bitmaps: Seq<Vec<u64>>, page_size: int) -> bool {
    &&& sizes.len() <= bitmaps.len()
    &&& forall|i: int|
        0 <= i < sizes.len() ==> #[trigger] sizes[i] <= 64 * bitmaps[i]@.len() * page_size
}

/// The sum of the first sizes grows by each size in turn.
pub proof fn lemma_total_step(sizes: Seq<int>, i: int)
    requires
        0 <= i < sizes.len(),
    ensures
        total(sizes.take(i + 1)) == total(sizes.take(i)) + sizes[i],
{
    assert(sizes.take(i + 1).drop_last() =~= sizes.take(i));
    assert(sizes.take(i + 1).last() == sizes[i]);
}

/// Of sizes that are not negative, the first ones sum to at most the total.
pub proof fn lemma_total_monotone(sizes: Seq<int>, i: int)
    requires
        0 <= i <= sizes.len(),
        forall|k: int| 0 <= k < sizes.len() ==> 0 <= #[trigger] sizes[k],
    ensures
        0 <= total(sizes.take(i)) <= total(sizes),
    decreases sizes.len() - i,
{
    if i == sizes.len() {
        assert(sizes.take(i) =~= sizes);
        lemma_total_nonnegative(sizes);
    } else {
        lemma_total_step(sizes, i);
        lemma_total_monotone(sizes, i + 1);
        lemma_total_nonnegative(sizes.take(i));
    }
}

/// Sizes that are not negative have a sum that is not negative.
pub proof fn lemma_total_nonnegative(sizes: Seq<int>)
    requires
        forall|k: int| 0 <= k < sizes.len() ==> 0 <= #[trigger] sizes[k],
    ensures
        0 <= total(sizes),
    decreases sizes.len(),
{
    if sizes.len() > 0 {
        assert forall|k: int| 0 <= k < sizes.drop_last().len() implies 0
            <= #[trigger] sizes.drop_last()[k] by {
            assert(sizes.drop_last()[k] == sizes[k]);
        }
        lemma_total_nonnegative(sizes.drop_last());
    }
}

/// Lays regions of the given sizes out one after the other from byte zero of a
/// memory image of `capacity` bytes, and returns where each starts, or `None` if
/// they do not fit.
pub fn lay_out(sizes: &Vec<u64>, capacity: usize) -> (r: Option<Vec<usize>>)
    ensures
        r is Some <==> total(ints(sizes@)) <= capacity,
        r matches Some(offsets) ==> {
            &&& offsets@.len() == sizes@.len()
            &&& forall|i: int|
                0 <= i < sizes@.len() ==> (#[trigger] offsets@[i]) == total(ints(sizes@).take(i))
                    && offsets@[i] + sizes@[i] <= capacity
        },
{
    let ghost all = ints(sizes@);
    let count: usize = sizes.len();
    let mut offsets: Vec<usize> = Vec::new();
    let mut offset: usize = 0;
    let mut k: usize = 0;
    proof {
        assert(all.take(0) =~= Seq::<int>::empty());
    }
    while k < count
        invariant
            all == ints(sizes@),
            count == sizes@.len(),
            k <= count,
            offset == total(all.take(k as int)),
            offset <= capacity,
            offsets@.len() == k,
            forall|i: int|
                0 <= i < k ==> (#[trigger] offsets@[i]) == total(all.take(i)) && offsets@[i]
                    + sizes@[i] <= capacity,
        decreases count - k,
    {
        let size: u64 = sizes[k];
        proof {
            lemma_total_step(all, k as int);
            lemma_total_monotone(all, k + 1);
        }
        if size > (capacity - offset) as u64 {
            return None;
        }
        offsets.push(offset);
        offset = offset + size as usize;
        k = k + 1;
    }
    proof {
        assert(all.take(count as int) =~= all);
    }
    Some(offsets)
}

/// Tests whether every offset lies on a page boundary.
pub fn on_page_boundaries(offsets: &Vec<usize>, page_size: usize) -> (ok: bool)
    requires
        page_size > 0,
    ensures
        ok == (forall|i: int|
            0 <= i < offsets@.len() ==> (#[trigger] offsets@[i]) as int % (page_size as int) == 0),
{
    let count: usize = offsets.len();
    let mut k: usize = 0;
    while k < count
        invariant
            page_size > 0,
            count == offsets@.len(),
            k <= count,
            forall|i: int| 0 <= i < k ==> (#[trigger] offsets@[i]) as int % (page_size as int) == 0,
        decreases count - k,
    {
        if offsets[k] % page_size != 0 {
            return false;
        }
        k = k + 1;
    }
    true
}

/// Tests whether there is a bitmap for every region, in order, with a bit for every
/// page of the region.
pub fn slots_cover(sizes: &Vec<u64>, bitmaps: &[Vec<u64>], page_size: usize) -> (ok: bool)
    requires
        page_size > 0,
        forall|i: int| 0 <= i < sizes@.len() ==> #[trigger] sizes@[i] <= usize::MAX,
    ensures
        ok == slots_cover_sizes(ints(sizes@), bitmaps@, page_size as int),
{
    let count: usize = sizes.len();
    if bitmaps.len() < count {
        return false;
    }
    let mut k: usize = 0;
    while k < count
        invariant
            page_size > 0,
            count == sizes@.len(),
            count <= bitmaps@.len(),
            k <= count,
            forall|i: int| 0 <= i < sizes@.len() ==> #[trigger] sizes@[i] <= usize::MAX,
            forall|i: int|
                0 <= i < k ==> #[trigger] ints(sizes@)[i] <= 64 * bitmaps@[i]@.len() * page_size,
        decreases count - k,
    {
        assert(ints(sizes@)[k as int] == sizes@[k as int]);
        if !bitmap_covers(bitmaps[k].len(), sizes[k] as usize, page_size) {
            return false;
        }
        k = k + 1;
    }
    true
}

} // verus!
