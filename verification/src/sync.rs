//! The diff adapter and the synchronization pass over regions of guest memory
//! given as plain values.

use crate::batch::{
    bitmap_covers, describes, dirty_pages, dirty_runs, lemma_runs_shape, pages_within, scan_region,
};
use crate::model::{
    apply_chunk, apply_plan, apply_plans, apply_runs, capture, overwrite, pass_result, plan_fits,
    plan_of, regions_aligned, regions_covered, regions_fit, regions_within, sync_regions,
    usable_page_size, PlanView, RegionView,
};
use crate::sync_backend::{OffsetLength, SyncState, SyncView};
use crate::words::{append_xor_of_bytes, xor_words};
use vstd::prelude::*;

verus! {


/// Stores `buf` in `base` from byte `at` on.
pub fn store(base: &mut Vec<u8>, at: usize, buf: &[u8])
    requires
        at + buf@.len() <= old(base)@.len(),
    ensures
        final(base)@ == overwrite(old(base)@, at as int, buf@),
{
    let size: usize = base.len();
    let total: usize = buf.len();
    let mut k: usize = 0;
    proof {
        assert(base@ =~= overwrite(old(base)@, at as int, buf@.take(0)));
    }
    while k < total
        invariant
            total == buf@.len(),
            at + total <= size,
            size == old(base)@.len(),
            k <= total,
            base@ == overwrite(old(base)@, at as int, buf@.take(k as int)),
        decreases total - k,
    {
        base[at + k] = buf[k];
        proof {
            assert(base@ =~= overwrite(old(base)@, at as int, buf@.take(k + 1)));
        }
        k = k + 1;
    }
    proof {
        assert(buf@.take(total as int) =~= buf@);
    }
}

/// Write sink that diffs incoming memory against the baseline: each write appends
/// the XOR of the new words with the baseline's words to the diff log and then
/// stores the new bytes in the baseline.
pub struct RegionProcessor {
    /// Baseline copy of guest memory.
    pub prior_full_snapshot: Vec<u8>,
    /// Byte offset into the baseline at which the next write lands.
    pub offset: usize,
    /// Diff log.
    pub xor_changes: Vec<u64>,
}

impl RegionProcessor {
    /// A sink over the given baseline and diff log, positioned at offset zero.
    pub fn new(full_memory_snapshot: Vec<u8>, xor_buffer: Vec<u64>) -> (r: RegionProcessor)
        ensures
            r.prior_full_snapshot == full_memory_snapshot,
            r.offset == 0,
            r.xor_changes == xor_buffer,
    {
        RegionProcessor {
            prior_full_snapshot: full_memory_snapshot,
            offset: 0,
            xor_changes: xor_buffer,
        }
    }

    /// Byte index in the baseline of the word that the current offset falls in.
    pub open spec fn start(&self) -> int {
        8 * (self.offset as int / 8)
    }

    /// Takes `buf` as the current content of guest memory at the sink's offset.
    /// For each word of `buf` the XOR with the baseline's word is appended to the
    /// diff log, and the baseline then holds `buf` in that place. Returns the number
    /// of bytes consumed, which is all of them.
    pub fn write(&mut self, buf: &[u8]) -> (n: usize)
        requires
            buf@.len() % 8 == 0,
            old(self).start() + buf@.len() <= old(self).prior_full_snapshot@.len(),
        ensures
            n == buf@.len(),
            final(self).offset == old(self).offset,
            final(self).prior_full_snapshot@ == overwrite(
                old(self).prior_full_snapshot@,
                old(self).start(),
                buf@,
            ),
            final(self).xor_changes@ == old(self).xor_changes@ + xor_words(
                buf@,
                old(self).prior_full_snapshot@.subrange(
                    old(self).start(),
                    old(self).start() + buf@.len(),
                ),
            ),
    {
        let capacity: usize = self.prior_full_snapshot.len();
        let start: usize = self.offset / 8 * 8;
        let total: usize = buf.len();
        assert(start + total <= capacity);
        let prior: &[u8] = vstd::slice::slice_subrange(
            self.prior_full_snapshot.as_slice(),
            start,
            start + total,
        );
        append_xor_of_bytes(&mut self.xor_changes, buf, prior);
        store(&mut self.prior_full_snapshot, start, buf);
        total
    }

    /// Completes the writes made so far. Every write takes effect at once, so
    /// nothing is left to do.
    pub fn flush(&mut self)
        ensures
            *final(self) == *old(self),
    {
    }

    /// Hands back the baseline and the diff log.
    pub fn into_parts(self) -> (r: (Vec<u8>, Vec<u64>))
        ensures
            r.0 == self.prior_full_snapshot,
            r.1 == self.xor_changes,
    {
        (self.prior_full_snapshot, self.xor_changes)
    }
}

/// One region of guest memory as a synchronization pass reads it.
pub struct GuestRegion<'a> {
    /// Byte offset of the region in the memory image, and so in the baseline.
    pub offset: usize,
    /// Current content of the region.
    pub memory: &'a [u8],
    /// The hypervisor's dirty bitmap for the region's memory slot: one bit per
    /// page, 64 pages per word, lowest bit first.
    pub dirty_bitmap: &'a [u64],
    /// The region's own write log: one entry per page.
    pub dirty_log: &'a [bool],
}

impl<'a> View for GuestRegion<'a> {
    type V = RegionView;

    open spec fn view(&self) -> RegionView {
        RegionView {
            offset: self.offset as int,
            memory: self.memory@,
            dirty: dirty_pages(self.dirty_bitmap@, self.dirty_log@),
        }
    }
}

/// The contents of a sequence of regions.
pub open spec fn views(regions: Seq<GuestRegion<'_>>) -> Seq<RegionView> {
    Seq::new(regions.len(), |i: int| regions[i]@)
}

/// Failures of a synchronization pass.
#[derive(Debug, Clone, Copy, PartialEq, Eq, Structural)]
pub enum SyncError {
    /// The hypervisor's dirty bitmap is missing for a memory slot, or has no bit for
    /// some page of the slot's region.
    DirtyBitmap,
    /// The page size is zero or not a whole number of words.
    PageSize,
    /// A page marked dirty lies outside the content of its region.
    RegionWrite,
    /// The regions do not fit the baseline, or one does not start on a page boundary.
    Layout,
}

/// Tests whether every region lies inside the baseline of `engine`.
pub fn fits_baseline(engine: &SyncState, regions: &[GuestRegion<'_>]) -> (ok: bool)
    ensures
        ok == regions_fit(views(regions@), engine@.baseline.len() as int),
{
    let capacity: usize = engine.prior_buffer.len();
    let count: usize = regions.len();
    let ghost all = views(regions@);
    let mut k: usize = 0;
    while k < count
        invariant
            count == regions@.len(),
            all == views(regions@),
            capacity == engine@.baseline.len(),
            k <= count,
            regions_fit(all.take(k as int), capacity as int),
        decreases count - k,
    {
        let region = &regions[k];
        let length: usize = region.memory.len();
        proof {
            assert(all[k as int] == region@);
        }
        if region.offset > capacity || length > capacity - region.offset {
            return false;
        }
        proof {
            let next = all.take(k + 1);
            assert forall|i: int| 0 <= i < next.len() implies 0 <= (#[trigger] next[i]).offset
                && next[i].offset + next[i].memory.len() <= capacity by {
                if i < k {
                    assert(next[i] == all.take(k as int)[i]);
                }
            }
        }
        k = k + 1;
    }
    proof {
        assert(all.take(count as int) =~= all);
    }
    true
}

/// Tests whether every region starts on a page boundary.
pub fn starts_on_pages(regions: &[GuestRegion<'_>], page_size: usize) -> (ok: bool)
    requires
        page_size > 0,
    ensures
        ok == regions_aligned(views(regions@), page_size as int),
{
    let count: usize = regions.len();
    let ghost all = views(regions@);
    let mut k: usize = 0;
    while k < count
        invariant
            page_size > 0,
            count == regions@.len(),
            all == views(regions@),
            k <= count,
            regions_aligned(all.take(k as int), page_size as int),
        decreases count - k,
    {
        proof {
            assert(all[k as int] == regions@[k as int]@);
        }
        if regions[k].offset % page_size != 0 {
            return false;
        }
        proof {
            let next = all.take(k + 1);
            assert forall|i: int| 0 <= i < next.len() implies (#[trigger] next[i]).offset % (
            page_size as int) == 0 by {
                if i < k {
                    assert(next[i] == all.take(k as int)[i]);
                }
            }
        }
        k = k + 1;
    }
    proof {
        assert(all.take(count as int) =~= all);
    }
    true
}

/// Captures the baseline: copies every region into the baseline at the
/// region's offset and records that a baseline exists. The diff buffers are not
/// touched.
pub fn capture_baseline(engine: &mut SyncState, regions: &[GuestRegion<'_>])
    requires
        regions_fit(views(regions@), old(engine)@.baseline.len() as int),
    ensures
        final(engine)@ == (SyncView {
            initialized: true,
            baseline: capture(old(engine)@.baseline, views(regions@)),
            ..old(engine)@
        }),
{
    let count: usize = regions.len();
    let ghost all = views(regions@);
    let mut k: usize = 0;
    proof {
        assert(all.take(0) =~= Seq::<RegionView>::empty());
    }
    while k < count
        invariant
            count == regions@.len(),
            all == views(regions@),
            k <= count,
            regions_fit(all, old(engine)@.baseline.len() as int),
            engine.prior_buffer@ == capture(old(engine)@.baseline, all.take(k as int)),
            engine.prior_buffer@.len() == old(engine)@.baseline.len(),
            engine.dirty == old(engine).dirty,
            engine.xor_data == old(engine).xor_data,
            engine.xor_offsets == old(engine).xor_offsets,
        decreases count - k,
    {
        let region = &regions[k];
        proof {
            assert(all[k as int] == region@);
            assert(all.take(k + 1).drop_last() =~= all.take(k as int));
            assert(all.take(k + 1).last() == region@);
        }
        store(&mut engine.prior_buffer, region.offset, region.memory);
        k = k + 1;
    }
    proof {
        assert(all.take(count as int) =~= all);
    }
    engine.set_dirty();
}

/// The engine whose baseline and diff words a sink holds.
pub open spec fn engine_view(writer: RegionProcessor, descriptors: Seq<OffsetLength>) -> SyncView {
    SyncView {
        initialized: true,
        baseline: writer.prior_full_snapshot@,
        diff_words: writer.xor_changes@,
        descriptors,
    }
}

/// The byte range of a run lies inside its region, holds whole words, and is not empty.
pub proof fn lemma_batch_bounds(dirty: Seq<bool>, k: int, size: int, limit: int)
    requires
        pages_within(dirty, size, limit),
        0 <= k < dirty_runs(dirty).len(),
        usable_page_size(size),
    ensures
        0 <= dirty_runs(dirty)[k].0 * size,
        size <= dirty_runs(dirty)[k].1 * size,
        dirty_runs(dirty)[k].0 * size + dirty_runs(dirty)[k].1 * size <= limit,
        (dirty_runs(dirty)[k].0 + dirty_runs(dirty)[k].1) * size == dirty_runs(dirty)[k].0 * size
            + dirty_runs(dirty)[k].1 * size,
        (dirty_runs(dirty)[k].0 * size) % 8 == 0,
        (dirty_runs(dirty)[k].1 * size) % 8 == 0,
{
    lemma_runs_shape(dirty);
    let run = dirty_runs(dirty)[k];
    let last = run.0 + run.1 - 1;
    assert(dirty[last]);
    assert((last + 1) * size <= limit);
    assert((run.0 + run.1) * size == run.0 * size + run.1 * size) by (nonlinear_arith);
    assert(0 <= run.0 * size && size <= run.1 * size) by (nonlinear_arith)
        requires
            0 <= run.0,
            1 <= run.1,
            size > 0,
    ;
    lemma_multiple_of_words(run.0, size);
    lemma_multiple_of_words(run.1, size);
}

/// A multiple of a whole number of words is a whole number of words.
pub proof fn lemma_multiple_of_words(n: int, size: int)
    requires
        size % 8 == 0,
    ensures
        (n * size) % 8 == 0,
{
    let q = size / 8;
    assert(size == 8 * q);
    assert(n * size == 8 * (n * q)) by (nonlinear_arith)
        requires
            size == 8 * q,
    ;
}

/// Sends one batch through the sink: `chunk` is the current content of guest memory
/// from byte `at` of the memory image on. Its descriptor is recorded, its XOR with
/// the baseline is appended to the diff log, and the baseline takes its bytes.
pub fn diff_batch(
    writer: &mut RegionProcessor,
    descriptors: &mut Vec<OffsetLength>,
    at: usize,
    chunk: &[u8],
)
    requires
        at % 8 == 0,
        chunk@.len() % 8 == 0,
        at + chunk@.len() <= old(writer).prior_full_snapshot@.len(),
    ensures
        final(writer).offset == at,
        engine_view(*final(writer), final(descriptors)@) == apply_chunk(
            engine_view(*old(writer), old(descriptors)@),
            at as int,
            chunk@,
        ),
{
    writer.offset = at;
    assert(writer.start() == at);
    let length: usize = writer.write(chunk);
    descriptors.push(OffsetLength { offset: at, len: length });
}

/// An offset on a page boundary is on a word boundary.
pub proof fn lemma_offset_of_words(offset: int, size: int)
    requires
        usable_page_size(size),
        offset % size == 0,
    ensures
        offset % 8 == 0,
{
    lemma_multiple_of_words(offset / size, size);
    assert(offset == (offset / size) * size) by (nonlinear_arith)
        requires
            size > 0,
            offset % size == 0,
    ;
}

/// What a pass has learned of one region and will apply: where the region lies in
/// the memory image, its batches with offsets inside the region, and the bytes read
/// for each batch.
pub struct RegionPlan {
    /// Byte offset of the region in the memory image.
    pub offset: usize,
    /// The batches of the region, in address order.
    pub batches: Vec<OffsetLength>,
    /// The bytes read for each batch.
    pub chunks: Vec<Vec<u8>>,
}

impl View for RegionPlan {
    type V = PlanView;

    open spec fn view(&self) -> PlanView {
        PlanView {
            offset: self.offset as int,
            batches: self.batches@,
            chunks: Seq::new(self.chunks@.len(), |k: int| self.chunks@[k]@),
        }
    }
}

/// The contents of a sequence of plans.
pub open spec fn plan_views(plans: Seq<RegionPlan>) -> Seq<PlanView> {
    Seq::new(plans.len(), |i: int| plans[i]@)
}

/// Whether every plan can be applied to a baseline of `capacity` bytes.
pub open spec fn plans_fit(plans: Seq<PlanView>, capacity: int) -> bool {
    forall|i: int| 0 <= i < plans.len() ==> plan_fits(#[trigger] plans[i], capacity)
}

/// Drives every batch of the plans, in order, through the diff adapter: the bytes
/// read for the batch go through the sink at the batch's offset in the baseline, and
/// the batch's descriptor is recorded. Returns the number of diff words accumulated.
pub fn diff_plans(engine: &mut SyncState, plans: &[RegionPlan]) -> (signal: u64)
    requires
        old(engine).is_copied(),
        plans_fit(plan_views(plans@), old(engine)@.baseline.len() as int),
    ensures
        final(engine)@ == apply_plans(old(engine)@, plan_views(plans@)),
        signal == final(engine)@.diff_words.len(),
{
    let ghost all = plan_views(plans@);
    let ghost start = engine@;
    let mut prior_buffer: Vec<u8> = Vec::new();
    let mut xor_data: Vec<u64> = Vec::new();
    std::mem::swap(&mut engine.prior_buffer, &mut prior_buffer);
    std::mem::swap(&mut engine.xor_data, &mut xor_data);
    let mut writer = RegionProcessor::new(prior_buffer, xor_data);
    let count: usize = plans.len();
    let mut k: usize = 0;
    proof {
        assert(all.take(0) =~= Seq::<PlanView>::empty());
        assert(engine_view(writer, engine.xor_offsets@) =~= start);
    }
    while k < count
        invariant
            count == plans@.len(),
            all == plan_views(plans@),
            k <= count,
            plans_fit(all, start.baseline.len() as int),
            writer.prior_full_snapshot@.len() == start.baseline.len(),
            engine.dirty,
            engine_view(writer, engine.xor_offsets@) == apply_plans(start, all.take(k as int)),
        decreases count - k,
    {
        let plan = &plans[k];
        let ghost before = engine_view(writer, engine.xor_offsets@);
        let batches: usize = plan.batches.len();
        let capacity: usize = writer.prior_full_snapshot.len();
        let mut m: usize = 0;
        proof {
            assert(all[k as int] == plan@);
            assert(plan_fits(all[k as int], start.baseline.len() as int));
            assert(all.take(k + 1).drop_last() =~= all.take(k as int));
            assert(all.take(k + 1).last() == plan@);
        }
        while m < batches
            invariant
                batches == plan.batches@.len(),
                m <= batches,
                plan_fits(plan@, capacity as int),
                capacity == writer.prior_full_snapshot@.len(),
                capacity == start.baseline.len(),
                engine.dirty,
                engine_view(writer, engine.xor_offsets@) == apply_plan(before, plan@, m as int),
            decreases batches - m,
        {
            let batch: OffsetLength = plan.batches[m];
            proof {
                assert(plan@.chunks[m as int] == plan.chunks@[m as int]@);
            }
            diff_batch(
                &mut writer,
                &mut engine.xor_offsets,
                plan.offset + batch.offset,
                plan.chunks[m].as_slice(),
            );
            m = m + 1;
        }
        k = k + 1;
    }
    proof {
        assert(all.take(count as int) =~= all);
    }
    let (prior_buffer, xor_data) = writer.into_parts();
    engine.prior_buffer = prior_buffer;
    engine.xor_data = xor_data;
    proof {
        assert(engine@ =~= apply_plans(start, all));
    }
    engine.xor_data.len() as u64
}

/// A plan made of a region's batches and bytes can be applied wherever the region
/// lies on a page boundary inside the baseline with its dirty pages inside it.
pub proof fn lemma_plan_fits(plan: PlanView, region: RegionView, size: int, capacity: int)
    requires
        usable_page_size(size),
        plan_of(plan, region, size),
        0 <= region.offset,
        region.offset % size == 0,
        region.offset + region.memory.len() <= capacity,
        pages_within(region.dirty, size, region.memory.len() as int),
    ensures
        plan_fits(plan, capacity),
{
    lemma_offset_of_words(region.offset, size);
    assert forall|k: int| 0 <= k < plan.batches.len() implies {
        &&& (#[trigger] plan.chunks[k]).len() == plan.batches[k].len
        &&& plan.batches[k].len % 8 == 0
        &&& (plan.offset + plan.batches[k].offset) % 8 == 0
        &&& plan.offset + plan.batches[k].offset + plan.batches[k].len <= capacity
    } by {
        lemma_batch_bounds(region.dirty, k, size, region.memory.len() as int);
    }
}

/// Applying a plan made of a region's batches and bytes is the pass over the region.
pub proof fn lemma_plan_is_region_pass(
    s: SyncView,
    plan: PlanView,
    region: RegionView,
    size: int,
    count: int,
)
    requires
        plan_of(plan, region, size),
        0 <= count <= plan.batches.len(),
    ensures
        apply_plan(s, plan, count) == apply_runs(
            s,
            region,
            dirty_runs(region.dirty).take(count),
            size,
        ),
    decreases count,
{
    let runs = dirty_runs(region.dirty);
    if count > 0 {
        lemma_plan_is_region_pass(s, plan, region, size, count - 1);
        assert(runs.take(count).drop_last() =~= runs.take(count - 1));
        assert(runs.take(count).last() == runs[count - 1]);
        assert(plan.chunks[count - 1] == region.memory.subrange(
            plan.batches[count - 1].offset as int,
            plan.batches[count - 1].offset + plan.batches[count - 1].len,
        ));
    } else {
        assert(runs.take(0) =~= Seq::<(int, int)>::empty());
    }
}

/// Applying plans made of the regions' batches and bytes is the pass over the regions.
pub proof fn lemma_plans_are_pass(
    s: SyncView,
    plans: Seq<PlanView>,
    regions: Seq<RegionView>,
    size: int,
)
    requires
        plans.len() == regions.len(),
        forall|i: int| 0 <= i < plans.len() ==> plan_of(#[trigger] plans[i], regions[i], size),
    ensures
        apply_plans(s, plans) == sync_regions(s, regions, size),
    decreases plans.len(),
{
    if plans.len() > 0 {
        let n = plans.len() - 1;
        assert forall|i: int| 0 <= i < n implies plan_of(
            #[trigger] plans.drop_last()[i],
            regions.drop_last()[i],
            size,
        ) by {
            assert(plan_of(plans[i], regions[i], size));
        }
        lemma_plans_are_pass(s, plans.drop_last(), regions.drop_last(), size);
        let mid = apply_plans(s, plans.drop_last());
        assert(plan_of(plans[n], regions[n], size));
        let runs = dirty_runs(regions.last().dirty);
        lemma_plan_is_region_pass(mid, plans.last(), regions.last(), size, runs.len() as int);
        assert(runs.take(runs.len() as int) =~= runs);
    }
}

/// Finds the batches of one region and copies the region's bytes for each, or
/// returns `None` if a dirty page lies outside the content of the region.
pub fn plan_region(region: &GuestRegion<'_>, page_size: usize) -> (r: Option<RegionPlan>)
    requires
        usable_page_size(page_size as int),
    ensures
        r is Some <==> pages_within(region@.dirty, page_size as int, region@.memory.len() as int),
        r matches Some(plan) ==> plan_of(plan@, region@, page_size as int),
{
    let limit: usize = region.memory.len();
    let batches: Vec<OffsetLength> = match scan_region(
        region.dirty_bitmap,
        region.dirty_log,
        page_size,
        limit,
    ) {
        Some(batches) => batches,
        None => {
            return None;
        },
    };
    let count: usize = batches.len();
    let mut chunks: Vec<Vec<u8>> = Vec::new();
    let mut k: usize = 0;
    while k < count
        invariant
            usable_page_size(page_size as int),
            limit == region.memory@.len(),
            pages_within(region@.dirty, page_size as int, limit as int),
            describes(batches@, dirty_runs(region@.dirty), page_size as int),
            count == batches@.len(),
            k <= count,
            chunks@.len() == k,
            forall|i: int|
                0 <= i < k ==> (#[trigger] chunks@[i])@ == region.memory@.subrange(
                    batches@[i].offset as int,
                    batches@[i].offset + batches@[i].len,
                ),
        decreases count - k,
    {
        let batch: OffsetLength = batches[k];
        proof {
            lemma_batch_bounds(region@.dirty, k as int, page_size as int, limit as int);
        }
        let chunk: Vec<u8> = vstd::slice::slice_to_vec(
            vstd::slice::slice_subrange(region.memory, batch.offset, batch.offset + batch.len),
        );
        let ghost earlier = chunks@;
        chunks.push(chunk);
        proof {
            assert forall|i: int| 0 <= i < k + 1 implies (#[trigger] chunks@[i])@
                == region.memory@.subrange(
                batches@[i].offset as int,
                batches@[i].offset + batches@[i].len,
            ) by {
                if i < k {
                    assert(chunks@[i] == earlier[i]);
                }
            }
        }
        k = k + 1;
    }
    Some(RegionPlan { offset: region.offset, batches, chunks })
}

/// Tests whether the hypervisor's bitmap of every region has a bit for every page
/// of the region.
pub fn bitmaps_cover(regions: &[GuestRegion<'_>], page_size: usize) -> (ok: bool)
    requires
        page_size > 0,
    ensures
        ok == regions_covered(views(regions@), page_size as int),
{
    let count: usize = regions.len();
    let ghost all = views(regions@);
    let mut k: usize = 0;
    while k < count
        invariant
            page_size > 0,
            count == regions@.len(),
            all == views(regions@),
            k <= count,
            regions_covered(all.take(k as int), page_size as int),
        decreases count - k,
    {
        let region = &regions[k];
        proof {
            assert(all[k as int] == region@);
            assert(region@.dirty.len() * page_size == 64 * region.dirty_bitmap@.len() * page_size)
                by (nonlinear_arith)
                requires
                    region@.dirty.len() == 64 * region.dirty_bitmap@.len(),
            ;
        }
        if !bitmap_covers(region.dirty_bitmap.len(), region.memory.len(), page_size) {
            return false;
        }
        proof {
            let next = all.take(k + 1);
            assert forall|i: int| 0 <= i < next.len() implies (#[trigger] next[i]).memory.len()
                <= next[i].dirty.len() * page_size by {
                if i < k {
                    assert(next[i] == all.take(k as int)[i]);
                }
            }
        }
        k = k + 1;
    }
    proof {
        assert(all.take(count as int) =~= all);
    }
    true
}

/// One synchronization pass over the regions of guest memory.
///
/// The first pass of an engine captures the baseline and produces no diff. Every
/// later pass finds the batches of each region, sends the bytes of each batch
/// through the diff adapter at the batch's offset in the baseline, and records the
/// batch's descriptor. It returns the size to signal the worker with, the number of
/// diff words accumulated, or `None` where nothing is to be signalled. A pass that
/// fails changes nothing.
pub fn synchronize(
    engine: &mut SyncState,
    regions: &[GuestRegion<'_>],
    page_size: usize,
) -> (r: Result<Option<u64>, SyncError>)
    ensures
        pass_result(old(engine)@, views(regions@), page_size as int, final(engine)@, r),
{
    if !engine.is_copied() {
        if !fits_baseline(engine, regions) {
            return Err(SyncError::Layout);
        }
        capture_baseline(engine, regions);
        return Ok(None);
    }
    if page_size == 0 || page_size % 8 != 0 {
        return Err(SyncError::PageSize);
    }
    if !fits_baseline(engine, regions) || !starts_on_pages(regions, page_size) {
        return Err(SyncError::Layout);
    }
    if !bitmaps_cover(regions, page_size) {
        return Err(SyncError::DirtyBitmap);
    }
    let ghost all = views(regions@);
    let ghost size = page_size as int;
    let ghost capacity = engine@.baseline.len() as int;
    let count: usize = regions.len();
    let mut plans: Vec<RegionPlan> = Vec::new();
    let mut k: usize = 0;
    while k < count
        invariant
            usable_page_size(size),
            size == page_size,
            count == regions@.len(),
            all == views(regions@),
            k <= count,
            *engine == *old(engine),
            engine.is_copied(),
            capacity == engine@.baseline.len(),
            regions_covered(all, size),
            regions_fit(all, capacity),
            regions_aligned(all, size),
            regions_within(all.take(k as int), size),
            plans@.len() == k,
            plans_fit(plan_views(plans@), capacity),
            forall|i: int| 0 <= i < k ==> plan_of((#[trigger] plans@[i])@, all[i], size),
        decreases count - k,
    {
        let region = &regions[k];
        proof {
            assert(all[k as int] == region@);
        }
        let plan: RegionPlan = match plan_region(region, page_size) {
            Some(plan) => plan,
            None => {
                assert(!pages_within(all[k as int].dirty, size, all[k as int].memory.len() as int));
                return Err(SyncError::RegionWrite);
            },
        };
        proof {
            lemma_plan_fits(plan@, region@, size, capacity);
        }
        let ghost earlier = plans@;
        plans.push(plan);
        proof {
            let next = all.take(k + 1);
            assert forall|i: int| 0 <= i < next.len() implies pages_within(
                (#[trigger] next[i]).dirty,
                size,
                next[i].memory.len() as int,
            ) by {
                if i < k {
                    assert(next[i] == all.take(k as int)[i]);
                }
            }
            assert forall|i: int| 0 <= i < k + 1 implies plan_of(
                (#[trigger] plans@[i])@,
                all[i],
                size,
            ) by {
                if i < k {
                    assert(plans@[i] == earlier[i]);
                }
            }
            assert forall|i: int| 0 <= i < plan_views(plans@).len() implies plan_fits(
                #[trigger] plan_views(plans@)[i],
                capacity,
            ) by {
                if i < k {
                    assert(plans@[i] == earlier[i]);
                    assert(plan_views(earlier)[i] == plan_views(plans@)[i]);
                }
            }
        }
        k = k + 1;
    }
    proof {
        assert(all.take(count as int) =~= all);
        lemma_plans_are_pass(engine@, plan_views(plans@), all, size);
    }
    let signal: u64 = diff_plans(engine, plans.as_slice());
    Ok(Some(signal))
}

} // verus!
