//! The mathematical model of a synchronization pass: what the baseline, the diff
//! words and the descriptors of an engine are after a pass over given regions.

use crate::batch::{describes, dirty_runs, pages_within};
use crate::sync::SyncError;
use crate::sync_backend::{OffsetLength, SyncView};
use crate::words::xor_words;
use vstd::prelude::*;

verus! {

/// `base` with the bytes from `at` on replaced by `buf`.
pub open spec fn overwrite(base: Seq<u8>, at: int, buf: Seq<u8>) -> Seq<u8> {
    Seq::new(
        base.len(),
        |j: int|
            if at <= j < at + buf.len() {
                buf[j - at]
            } else {
                base[j]
            },
    )
}

/// Mathematical content of one region of guest memory.
#[verifier::ext_equal]
pub struct RegionView {
    /// Byte offset of the region in the memory image.
    pub offset: int,
    /// Current content of the region.
    pub memory: Seq<u8>,
    /// Combined dirty indicator, one entry per page.
    pub dirty: Seq<bool>,
}

/// The baseline after a full copy of every region, in order, each at its offset.
pub open spec fn capture(baseline: Seq<u8>, regions: Seq<RegionView>) -> Seq<u8>
    decreases regions.len(),
{
    if regions.len() == 0 {
        baseline
    } else {
        overwrite(
            capture(baseline, regions.drop_last()),
            regions.last().offset,
            regions.last().memory,
        )
    }
}

/// The engine after `chunk`, the current content of guest memory from byte `at` of
/// the memory image on, went through the diff adapter as one batch: the batch's
/// descriptor is recorded, the XOR of the chunk with the baseline's bytes is
/// appended to the diff words, and the baseline holds the chunk in that range.
pub open spec fn apply_chunk(s: SyncView, at: int, chunk: Seq<u8>) -> SyncView {
    SyncView {
        initialized: s.initialized,
        baseline: overwrite(s.baseline, at, chunk),
        diff_words: s.diff_words + xor_words(chunk, s.baseline.subrange(at, at + chunk.len())),
        descriptors: s.descriptors.push(
            OffsetLength { offset: at as usize, len: chunk.len() as usize },
        ),
    }
}

/// The engine after the batch of the pages of `run` in `region`.
pub open spec fn apply_batch(s: SyncView, region: RegionView, run: (int, int), size: int) -> SyncView {
    apply_chunk(
        s,
        region.offset + run.0 * size,
        region.memory.subrange(run.0 * size, run.0 * size + run.1 * size),
    )
}

/// The engine after the batches of `runs`, in order.
pub open spec fn apply_runs(
    s: SyncView,
    region: RegionView,
    runs: Seq<(int, int)>,
    size: int,
) -> SyncView
    decreases runs.len(),
{
    if runs.len() == 0 {
        s
    } else {
        apply_batch(apply_runs(s, region, runs.drop_last(), size), region, runs.last(), size)
    }
}

/// The engine after an incremental pass over one region.
pub open spec fn sync_region(s: SyncView, region: RegionView, size: int) -> SyncView {
    apply_runs(s, region, dirty_runs(region.dirty), size)
}

/// The engine after an incremental pass over the regions, in order.
pub open spec fn sync_regions(s: SyncView, regions: Seq<RegionView>, size: int) -> SyncView
    decreases regions.len(),
{
    if regions.len() == 0 {
        s
    } else {
        sync_region(sync_regions(s, regions.drop_last(), size), regions.last(), size)
    }
}

/// Whether every region lies inside a baseline of `capacity` bytes.
pub open spec fn regions_fit(regions: Seq<RegionView>, capacity: int) -> bool {
    forall|i: int|
        0 <= i < regions.len() ==> 0 <= (#[trigger] regions[i]).offset && regions[i].offset
            + regions[i].memory.len() <= capacity
}

/// Whether every region starts on a page boundary.
pub open spec fn regions_aligned(regions: Seq<RegionView>, size: int) -> bool {
    forall|i: int| 0 <= i < regions.len() ==> (#[trigger] regions[i]).offset % size == 0
}

/// Whether every dirty page of every region lies inside the region's content.
pub open spec fn regions_within(regions: Seq<RegionView>, size: int) -> bool {
    forall|i: int|
        0 <= i < regions.len() ==> pages_within(
            (#[trigger] regions[i]).dirty,
            size,
            regions[i].memory.len() as int,
        )
}

/// Whether the dirty indicator of every region has an entry for every page, whole
/// or partial, of the region.
pub open spec fn regions_covered(regions: Seq<RegionView>, size: int) -> bool {
    forall|i: int|
        0 <= i < regions.len() ==> (#[trigger] regions[i]).memory.len() <= regions[i].dirty.len()
            * size
}

/// Whether pages of `size` bytes can be diffed: the size is positive and a whole
/// number of words.
pub open spec fn usable_page_size(size: int) -> bool {
    size > 0 && size % 8 == 0
}

/// What one synchronization pass does. Without a baseline it captures one and
/// signals nothing, provided the regions fit the baseline. With one, it fails on an
/// unusable page size, on regions that do not fit the baseline or do not start on
/// page boundaries, on a dirty indicator that does not cover its region, and on a
/// dirty page outside its region, in this order; otherwise it diffs every batch and
/// asks for a signal that carries the number of accumulated diff words. A pass that
/// fails leaves the engine as it was.
pub open spec fn pass_result(
    before: SyncView,
    regions: Seq<RegionView>,
    size: int,
    after: SyncView,
    r: Result<Option<u64>, SyncError>,
) -> bool {
    if !before.initialized {
        if !regions_fit(regions, before.baseline.len() as int) {
            r == Err::<Option<u64>, SyncError>(SyncError::Layout) && after == before
        } else {
            &&& r == Ok::<Option<u64>, SyncError>(None)
            &&& after == SyncView {
                initialized: true,
                baseline: capture(before.baseline, regions),
                ..before
            }
        }
    } else if !usable_page_size(size) {
        r == Err::<Option<u64>, SyncError>(SyncError::PageSize) && after == before
    } else if !regions_fit(regions, before.baseline.len() as int) || !regions_aligned(
        regions,
        size,
    ) {
        r == Err::<Option<u64>, SyncError>(SyncError::Layout) && after == before
    } else if !regions_covered(regions, size) {
        r == Err::<Option<u64>, SyncError>(SyncError::DirtyBitmap) && after == before
    } else if !regions_within(regions, size) {
        r == Err::<Option<u64>, SyncError>(SyncError::RegionWrite) && after == before
    } else {
        &&& after == sync_regions(before, regions, size)
        &&& r == Ok::<Option<u64>, SyncError>(Some(after.diff_words.len() as u64))
    }
}

/// Mathematical content of what a pass has learned of one region: where the region
/// lies in the memory image, its batches with offsets inside the region, and the
/// bytes read for each batch.
#[verifier::ext_equal]
pub struct PlanView {
    /// Byte offset of the region in the memory image.
    pub offset: int,
    /// The batches of the region, in address order.
    pub batches: Seq<OffsetLength>,
    /// The bytes read for each batch.
    pub chunks: Seq<Seq<u8>>,
}

/// The engine after the first `count` batches of a plan went through the diff
/// adapter, each with the bytes read for it.
pub open spec fn apply_plan(s: SyncView, plan: PlanView, count: int) -> SyncView
    decreases count,
{
    if count <= 0 {
        s
    } else {
        apply_chunk(
            apply_plan(s, plan, count - 1),
            plan.offset + plan.batches[count - 1].offset,
            plan.chunks[count - 1],
        )
    }
}

/// The engine after every batch of the plans, in order.
pub open spec fn apply_plans(s: SyncView, plans: Seq<PlanView>) -> SyncView
    decreases plans.len(),
{
    if plans.len() == 0 {
        s
    } else {
        apply_plan(
            apply_plans(s, plans.drop_last()),
            plans.last(),
            plans.last().batches.len() as int,
        )
    }
}

/// Whether a plan can be applied to a baseline of `capacity` bytes: there are
/// bytes for each batch, as many as the batch spans, in whole words, and each batch
/// lies on a word boundary inside the baseline.
pub open spec fn plan_fits(plan: PlanView, capacity: int) -> bool {
    &&& 0 <= plan.offset
    &&& plan.chunks.len() == plan.batches.len()
    &&& forall|k: int|
        0 <= k < plan.batches.len() ==> {
            &&& (#[trigger] plan.chunks[k]).len() == plan.batches[k].len
            &&& plan.batches[k].len % 8 == 0
            &&& (plan.offset + plan.batches[k].offset) % 8 == 0
            &&& plan.offset + plan.batches[k].offset + plan.batches[k].len <= capacity
        }
}

/// Whether `plan` holds the batches of `region` and, for each, the region's bytes.
pub open spec fn plan_of(plan: PlanView, region: RegionView, size: int) -> bool {
    &&& plan.offset == region.offset
    &&& describes(plan.batches, dirty_runs(region.dirty), size)
    &&& plan.chunks.len() == plan.batches.len()
    &&& forall|k: int|
        0 <= k < plan.batches.len() ==> #[trigger] plan.chunks[k] == region.memory.subrange(
            plan.batches[k].offset as int,
            plan.batches[k].offset + plan.batches[k].len,
        )
}

/// Whether no page of any region is marked dirty.
pub open spec fn all_clean(regions: Seq<RegionView>) -> bool {
    forall|i: int, p: int|
        0 <= i < regions.len() && 0 <= p < regions[i].dirty.len() ==> !(#[trigger] regions[i].dirty[p])
}

/// Whether no two regions share a byte of the memory image.
pub open spec fn regions_disjoint(regions: Seq<RegionView>) -> bool {
    forall|i: int, j: int|
        0 <= i < j < regions.len() ==> (#[trigger] regions[i]).offset + regions[i].memory.len()
            <= (#[trigger] regions[j]).offset || regions[j].offset + regions[j].memory.len()
            <= regions[i].offset
}

/// Whether byte `at` of the memory image belongs to one of the regions.
pub open spec fn in_some_region(regions: Seq<RegionView>, at: int) -> bool {
    exists|i: int|
        0 <= i < regions.len() && (#[trigger] regions[i]).offset <= at < regions[i].offset
            + regions[i].memory.len()
}

} // verus!
