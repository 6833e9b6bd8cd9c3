//! Synchronization passes over the memory of a memory-mapped guest.

use crate::batch::{
    describes, dirty_pages, dirty_runs, lemma_page_starts_inside, lemma_runs_shape, page_count,
    pages_of, pages_within, scan_slots, slot_dirty, slots_within,
};
use crate::invariants::lemma_first_pass_captures_memory;
use crate::layout::{
    ints, lay_out, lemma_total_monotone, lemma_total_step, on_page_boundaries, sizes_aligned,
    slots_cover, slots_cover_sizes, total,
};
use crate::model::{
    capture, overwrite, pass_result, plan_fits, plan_of, regions_aligned, regions_covered,
    regions_disjoint, regions_fit, regions_within, usable_page_size, PlanView, RegionView,
};
use crate::sync::{
    capture_baseline, diff_plans, lemma_batch_bounds, lemma_plan_fits, lemma_plans_are_pass,
    plan_views, plans_fit, views, GuestRegion, RegionPlan, SyncError,
};
use crate::sync_backend::{OffsetLength, SyncState, SyncView};
use vm_memory::bitmap::{AtomicBitmap, Bitmap};
use vm_memory::{
    Bytes, GuestMemoryBackend, GuestMemoryError, GuestMemoryMmap, GuestMemoryRegion,
    GuestRegionMmap, MemoryRegionAddress,
};
use vstd::prelude::*;

verus! {

/// `vm_memory::GuestRegionMmap`: one region of guest memory, mapped into this process.
#[verifier::external_type_specification]
#[verifier::external_body]
#[verifier::reject_recursive_types(B)]
pub struct ExGuestRegionMmap<B>(vm_memory::GuestRegionMmap<B>);

/// `vm_memory::GuestRegionCollection`: the regions of a guest, which is what
/// `vm_memory::GuestMemoryMmap` stands for.
#[verifier::external_type_specification]
#[verifier::external_body]
#[verifier::reject_recursive_types(R)]
pub struct ExGuestRegionCollection<R>(vm_memory::GuestRegionCollection<R>);

/// `vm_memory::bitmap::AtomicBitmap`: a region's own log of written pages.
#[verifier::external_type_specification]
#[verifier::external_body]
pub struct ExAtomicBitmap(vm_memory::bitmap::AtomicBitmap);

/// `vm_memory::GuestMemoryError`: why an access to guest memory failed.
#[verifier::external_type_specification]
#[verifier::external_body]
pub struct ExGuestMemoryError(vm_memory::GuestMemoryError);

/// The sizes in bytes of the regions of a guest, in the order in which
/// `GuestMemoryBackend::iter` hands the regions out.
pub uninterp spec fn region_sizes(memory: GuestMemoryMmap<AtomicBitmap>) -> Seq<int>;

/// The size in bytes of a region, as `GuestMemoryRegion::len` gives it.
pub uninterp spec fn region_size(region: GuestRegionMmap<AtomicBitmap>) -> int;

/// Calls `GuestMemoryBackend::iter` and collects what it yields: the regions of the
/// guest, in the order of their guest addresses. A guest's regions and their sizes
/// are fixed once the guest is built, so the regions handed out are as many as
/// [`region_sizes`] has entries, and each has the size in its place.
#[verifier::external_body]
fn memory_regions(memory: &GuestMemoryMmap<AtomicBitmap>) -> (regions: Vec<
    &GuestRegionMmap<AtomicBitmap>,
>)
    ensures
        regions@.len() == region_sizes(*memory).len(),
        forall|i: int|
            0 <= i < regions@.len() ==> region_size(*#[trigger] regions@[i]) == region_sizes(
                *memory,
            )[i],
{
    GuestMemoryBackend::iter(memory).collect()
}

/// Calls `GuestMemoryRegion::len`, the size of the region's mapping in bytes, which
/// is [`region_size`].
#[verifier::external_body]
fn region_len(region: &GuestRegionMmap<AtomicBitmap>) -> (len: u64)
    ensures
        len == region_size(*region),
{
    GuestMemoryRegion::len(region)
}

/// Calls `GuestMemoryRegion::bitmap` and, on the bitmap, `Bitmap::dirty_at`: whether
/// the region's write log marks the page that holds byte `offset` of the region.
/// The answer depends on what the guest has written; nothing is claimed of it.
#[verifier::external_body]
fn region_dirty_at(region: &GuestRegionMmap<AtomicBitmap>, offset: usize) -> (dirty: bool) {
    region.bitmap().dirty_at(offset)
}

/// Calls `Bytes::read_slice` on the region with a buffer of `count` bytes: on
/// success the buffer holds the `count` bytes of the region from byte `start` on, as
/// they were when read. The call fails only for lack of data: an empty buffer is
/// always filled, and so is one whose range lies inside the region. Of the buffer
/// only the length is claimed, which the call does not change.
#[verifier::external_body]
fn region_read(region: &GuestRegionMmap<AtomicBitmap>, start: u64, count: usize) -> (r: Result<
    Vec<u8>,
    GuestMemoryError,
>)
    ensures
        r matches Ok(bytes) ==> bytes@.len() == count,
        count == 0 || start + count <= region_size(*region) ==> r is Ok,
{
    let mut bytes: Vec<u8> = vec![0u8; count];
    match region.read_slice(&mut bytes, MemoryRegionAddress(start)) {
        Ok(()) => Ok(bytes),
        Err(e) => Err(e),
    }
}

/// The regions of a guest as a first pass reads them: laid out one after the other
/// from byte zero of the memory image, with the given contents and nothing marked.
pub open spec fn captured_regions(sizes: Seq<int>, contents: Seq<Seq<u8>>) -> Seq<RegionView> {
    Seq::new(
        sizes.len(),
        |i: int|
            RegionView { offset: total(sizes.take(i)), memory: contents[i], dirty: Seq::empty() },
    )
}

/// The regions of a guest as a later pass reads them: laid out one after the other
/// from byte zero of the memory image, with the given contents, and with a page
/// dirty where the hypervisor's bitmap of the region or the given write log marks it.
pub open spec fn observed_regions(
    sizes: Seq<int>,
    bitmaps: Seq<Vec<u64>>,
    logs: Seq<Seq<bool>>,
    contents: Seq<Seq<u8>>,
) -> Seq<RegionView> {
    Seq::new(
        sizes.len(),
        |i: int|
            RegionView {
                offset: total(sizes.take(i)),
                memory: contents[i],
                dirty: dirty_pages(bitmaps[i]@, logs[i]),
            },
    )
}

/// Whether there is a content for each region, of the region's size.
pub open spec fn contents_of(contents: Seq<Seq<u8>>, sizes: Seq<int>) -> bool {
    &&& contents.len() == sizes.len()
    &&& forall|i: int| 0 <= i < sizes.len() ==> (#[trigger] contents[i]).len() == sizes[i]
}

/// Whether there is a write log for each region, with one entry for each page,
/// whole or partial, of the region.
pub open spec fn logs_of(logs: Seq<Seq<bool>>, sizes: Seq<int>, page_size: int) -> bool {
    &&& logs.len() == sizes.len()
    &&& forall|i: int|
        0 <= i < sizes.len() ==> (#[trigger] logs[i]).len() == pages_of(sizes[i], page_size)
}

/// What a full copy of guest memory does, for a guest whose regions have the given
/// sizes. Regions that do not fit the baseline, one after the other, are refused
/// before anything is read, and the engine stays as it was. Otherwise the copy
/// succeeds: the regions have been read in full, and the baseline holds what was
/// read and counts as captured.
pub open spec fn capture_result(
    before: SyncView,
    sizes: Seq<int>,
    after: SyncView,
    r: Result<(), SyncError>,
) -> bool {
    if total(sizes) > before.baseline.len() {
        r == Err::<(), SyncError>(SyncError::Layout) && after == before
    } else {
        &&& r is Ok
        &&& exists|contents: Seq<Seq<u8>>|
            {
                &&& contents_of(contents, sizes)
                &&& regions_fit(
                    #[trigger] captured_regions(sizes, contents),
                    before.baseline.len() as int,
                )
                &&& after == SyncView {
                    initialized: true,
                    baseline: capture(before.baseline, captured_regions(sizes, contents)),
                    ..before
                }
            }
    }
}

/// What a pass over guest memory does, for a guest whose regions have the given
/// sizes and lie one after the other from byte zero of the memory image.
///
/// Without a baseline it is a full copy, which succeeds where the regions fit the
/// baseline. With one, the pass is refused, before anything is read, for an unusable
/// page size, for regions that do not fit the baseline or do not start on page
/// boundaries, and for a missing or short bitmap, in this order. Otherwise there
/// were write logs and contents of the regions, of the right sizes, over which the
/// pass did what [`pass_result`] says: it fails where a page marked dirty lies
/// outside its region, and succeeds everywhere else. A failure leaves the engine as
/// it was.
pub open spec fn guest_pass_result(
    before: SyncView,
    sizes: Seq<int>,
    bitmaps: Seq<Vec<u64>>,
    size: int,
    after: SyncView,
    r: Result<Option<u64>, SyncError>,
) -> bool {
    let capacity = before.baseline.len() as int;
    if !before.initialized {
        if total(sizes) > capacity {
            r == Err::<Option<u64>, SyncError>(SyncError::Layout) && after == before
        } else {
            &&& r is Ok
            &&& exists|contents: Seq<Seq<u8>>|
                contents_of(contents, sizes) && #[trigger] pass_result(
                    before,
                    captured_regions(sizes, contents),
                    size,
                    after,
                    r,
                )
        }
    } else if !usable_page_size(size) {
        r == Err::<Option<u64>, SyncError>(SyncError::PageSize) && after == before
    } else if total(sizes) > capacity || !sizes_aligned(sizes, size) {
        r == Err::<Option<u64>, SyncError>(SyncError::Layout) && after == before
    } else if !slots_cover_sizes(sizes, bitmaps, size) {
        r == Err::<Option<u64>, SyncError>(SyncError::DirtyBitmap) && after == before
    } else {
        &&& r is Ok || r == Err::<Option<u64>, SyncError>(SyncError::RegionWrite)
        &&& exists|logs: Seq<Seq<bool>>, contents: Seq<Seq<u8>>|
            {
                &&& logs_of(logs, sizes, size)
                &&& contents_of(contents, sizes)
                &&& #[trigger] pass_result(
                    before,
                    observed_regions(sizes, bitmaps, logs, contents),
                    size,
                    after,
                    r,
                )
            }
    }
}

/// Regions laid out one after the other do not overlap.
pub proof fn lemma_laid_out_regions_are_disjoint(regions: Seq<RegionView>, sizes: Seq<int>)
    requires
        regions.len() == sizes.len(),
        forall|i: int|
            0 <= i < sizes.len() ==> 0 <= #[trigger] sizes[i] && regions[i].memory.len() == sizes[i]
                && regions[i].offset == total(sizes.take(i)),
    ensures
        regions_disjoint(regions),
{
    assert forall|i: int, j: int| 0 <= i < j < regions.len() implies (#[trigger] regions[i]).offset
        + regions[i].memory.len() <= (#[trigger] regions[j]).offset by {
        assert(0 <= sizes[i] && 0 <= sizes[j]);
        lemma_total_step(sizes, i);
        let first = sizes.take(j);
        assert(first.take(i + 1) =~= sizes.take(i + 1));
        assert forall|k: int| 0 <= k < first.len() implies 0 <= #[trigger] first[k] by {
            assert(0 <= sizes[k]);
        }
        lemma_total_monotone(first, i + 1);
    }
}

/// The first pass captures guest memory: on an engine without a baseline, a pass
/// over a guest whose regions fit the baseline succeeds and signals nothing, the
/// diff buffers are as they were, and the engine has a baseline, of the old length,
/// that holds a content of every region, of the region's size, at the region's
/// place in the memory image.
pub proof fn lemma_first_guest_pass_captures_memory(
    before: SyncView,
    sizes: Seq<int>,
    bitmaps: Seq<Vec<u64>>,
    size: int,
    after: SyncView,
    r: Result<Option<u64>, SyncError>,
)
    requires
        !before.initialized,
        forall|i: int| 0 <= i < sizes.len() ==> 0 <= #[trigger] sizes[i],
        total(sizes) <= before.baseline.len(),
        guest_pass_result(before, sizes, bitmaps, size, after, r),
    ensures
        r == Ok::<Option<u64>, SyncError>(None),
        after.initialized,
        after.diff_words == before.diff_words,
        after.descriptors == before.descriptors,
        after.baseline.len() == before.baseline.len(),
        exists|contents: Seq<Seq<u8>>|
            #[trigger] contents_of(contents, sizes) && forall|i: int, k: int|
                0 <= i < sizes.len() && 0 <= k < sizes[i] ==> #[trigger] after.baseline[total(
                    sizes.take(i),
                ) + k] == contents[i][k],
{
    let capacity = before.baseline.len() as int;
    let contents = choose|contents: Seq<Seq<u8>>|
        contents_of(contents, sizes) && #[trigger] pass_result(
            before,
            captured_regions(sizes, contents),
            size,
            after,
            r,
        );
    let regions = captured_regions(sizes, contents);
    assert forall|i: int| 0 <= i < regions.len() implies 0 <= (#[trigger] regions[i]).offset
        && regions[i].offset + regions[i].memory.len() <= capacity by {
        lemma_total_step(sizes, i);
        lemma_total_monotone(sizes, i);
        lemma_total_monotone(sizes, i + 1);
        assert(contents[i].len() == sizes[i]);
    }
    assert forall|i: int|
        0 <= i < sizes.len() implies 0 <= #[trigger] sizes[i] && regions[i].memory.len() == sizes[i]
        && regions[i].offset == total(sizes.take(i)) by {
        assert(contents[i].len() == sizes[i]);
    }
    lemma_laid_out_regions_are_disjoint(regions, sizes);
    lemma_first_pass_captures_memory(before, regions, size, after, r);
    assert forall|i: int, k: int| 0 <= i < sizes.len() && 0 <= k < sizes[i] implies #[trigger] after.baseline[total(
        sizes.take(i),
    ) + k] == contents[i][k] by {
        assert(contents[i].len() == sizes[i]);
        assert(after.baseline[regions[i].offset + k] == regions[i].memory[k]);
    }
    assert(contents_of(contents, sizes));
}

/// Asks each region for its size.
fn measure(found: &Vec<&GuestRegionMmap<AtomicBitmap>>) -> (sizes: Vec<u64>)
    ensures
        sizes@.len() == found@.len(),
        forall|i: int| 0 <= i < found@.len() ==> #[trigger] sizes@[i] == region_size(*found@[i]),
{
    let count: usize = found.len();
    let mut sizes: Vec<u64> = Vec::new();
    let mut k: usize = 0;
    while k < count
        invariant
            count == found@.len(),
            k <= count,
            sizes@.len() == k,
            forall|i: int| 0 <= i < k ==> #[trigger] sizes@[i] == region_size(*found@[i]),
        decreases count - k,
    {
        sizes.push(region_len(found[k]));
        k = k + 1;
    }
    sizes
}

/// Perform a full memory snapshot: reads every region of the guest and, if they
/// fit, copies them into the baseline one after the other and records that a
/// baseline exists. The diff buffers are not touched.
pub fn full_memory_snapshot(engine: &mut SyncState, memory: &GuestMemoryMmap<AtomicBitmap>) -> (r:
    Result<(), SyncError>)
    ensures
        capture_result(old(engine)@, region_sizes(*memory), final(engine)@, r),
{
    let found = memory_regions(memory);
    let sizes: Vec<u64> = measure(&found);
    let ghost all = region_sizes(*memory);
    proof {
        assert(ints(sizes@) =~= all);
    }
    let capacity: usize = engine.prior_buffer.len();
    let offsets: Vec<usize> = match lay_out(&sizes, capacity) {
        Some(offsets) => offsets,
        None => {
            return Err(SyncError::Layout);
        },
    };
    let count: usize = found.len();
    let mut copies: Vec<Vec<u8>> = Vec::new();
    let mut k: usize = 0;
    while k < count
        invariant
            count == found@.len(),
            count == sizes@.len(),
            offsets@.len() == sizes@.len(),
            k <= count,
            *engine == *old(engine),
            capacity == engine@.baseline.len(),
            all == region_sizes(*memory),
            all.len() == count,
            total(all) <= capacity,
            forall|i: int|
                0 <= i < sizes@.len() ==> (#[trigger] offsets@[i]) + sizes@[i] <= capacity,
            forall|i: int|
                0 <= i < found@.len() ==> #[trigger] sizes@[i] == region_size(*found@[i]),
            copies@.len() == k,
            forall|i: int| 0 <= i < k ==> (#[trigger] copies@[i])@.len() == sizes@[i],
        decreases count - k,
    {
        assert(offsets@[k as int] + sizes@[k as int] <= capacity);
        assert(sizes@[k as int] == region_size(*found@[k as int]));
        let bytes: Vec<u8> = match region_read(found[k], 0, sizes[k] as usize) {
            Ok(bytes) => bytes,
            // a range inside the region is always read
            Err(_) => {
                return Err(SyncError::RegionWrite);
            },
        };
        let ghost earlier = copies@;
        copies.push(bytes);
        proof {
            assert forall|i: int| 0 <= i < k + 1 implies (#[trigger] copies@[i])@.len()
                == sizes@[i] by {
                if i < k {
                    assert(copies@[i] == earlier[i]);
                }
            }
        }
        k = k + 1;
    }
    let ghost contents = Seq::new(copies@.len(), |i: int| copies@[i]@);
    let ghost regions = captured_regions(all, contents);
    let no_bitmap: Vec<u64> = Vec::new();
    let no_log: Vec<bool> = Vec::new();
    let mut plain: Vec<GuestRegion<'_>> = Vec::new();
    let mut k: usize = 0;
    while k < count
        invariant
            count == copies@.len(),
            count == sizes@.len(),
            offsets@.len() == sizes@.len(),
            k <= count,
            *engine == *old(engine),
            no_bitmap@.len() == 0,
            all == ints(sizes@),
            regions == captured_regions(all, contents),
            contents == Seq::new(copies@.len(), |i: int| copies@[i]@),
            forall|i: int|
                0 <= i < sizes@.len() ==> (#[trigger] offsets@[i]) == total(all.take(i)),
            plain@.len() == k,
            forall|i: int| 0 <= i < k ==> (#[trigger] plain@[i])@ == regions[i],
        decreases count - k,
    {
        let region = GuestRegion {
            offset: offsets[k],
            memory: copies[k].as_slice(),
            dirty_bitmap: no_bitmap.as_slice(),
            dirty_log: no_log.as_slice(),
        };
        proof {
            assert(offsets@[k as int] == total(all.take(k as int)));
            assert(region@.dirty =~= Seq::<bool>::empty());
            assert(region@ == regions[k as int]);
        }
        let ghost earlier = plain@;
        plain.push(region);
        proof {
            assert forall|i: int| 0 <= i < k + 1 implies (#[trigger] plain@[i])@ == regions[i] by {
                if i < k {
                    assert(plain@[i] == earlier[i]);
                }
            }
        }
        k = k + 1;
    }
    proof {
        assert(views(plain@) =~= regions);
        assert(contents_of(contents, all)) by {
            assert forall|i: int| 0 <= i < all.len() implies (#[trigger] contents[i]).len()
                == all[i] by {
                assert(copies@[i]@.len() == sizes@[i]);
            }
        }
        assert forall|i: int| 0 <= i < regions.len() implies 0 <= (#[trigger] regions[i]).offset
            && regions[i].offset + regions[i].memory.len() <= capacity by {
            assert(offsets@[i] + sizes@[i] <= capacity);
            assert(contents[i].len() == all[i]);
        }
    }
    capture_baseline(engine, plain.as_slice());
    Ok(())
}

/// Whether `chunks` are the bytes of `memory` in the ranges of `batches`.
spec fn chunks_of(chunks: Seq<Vec<u8>>, batches: Seq<OffsetLength>, memory: Seq<u8>) -> bool {
    &&& chunks.len() == batches.len()
    &&& forall|k: int|
        0 <= k < batches.len() ==> (#[trigger] chunks[k])@ == memory.subrange(
            batches[k].offset as int,
            batches[k].offset + batches[k].len,
        )
}

/// Asks the region's write log about each page, whole or partial, of a region of `length` bytes.
fn collect_dirty_log(region: &GuestRegionMmap<AtomicBitmap>, length: usize, page_size: usize) -> (log:
    Vec<bool>)
    requires
        page_size > 0,
    ensures
        log@.len() == pages_of(length as int, page_size as int),
{
    let pages: usize = page_count(length, page_size);
    let mut log: Vec<bool> = Vec::new();
    let mut page: usize = 0;
    while page < pages
        invariant
            page_size > 0,
            pages == pages_of(length as int, page_size as int),
            page <= pages,
            log@.len() == page,
        decreases pages - page,
    {
        proof {
            lemma_page_starts_inside(page as int, length as int, page_size as int);
        }
        log.push(region_dirty_at(region, page * page_size));
        page = page + 1;
    }
    log
}

/// Reads the bytes of each batch from the region, which succeeds for batches inside the
/// region: there is then a content of the whole region that the bytes read are part of.
fn read_batches(region: &GuestRegionMmap<AtomicBitmap>, batches: &Vec<OffsetLength>, length: usize) -> (r:
    Option<(Vec<Vec<u8>>, Ghost<Seq<u8>>)>)
    requires
        length <= region_size(*region),
        forall|k: int|
            0 <= k < batches@.len() ==> (#[trigger] batches@[k]).offset + batches@[k].len <= length,
        forall|k: int|
            0 <= k && k + 1 < batches@.len() ==> (#[trigger] batches@[k]).offset + batches@[k].len
                <= batches@[k + 1].offset,
    ensures
        r is Some,
        r matches Some((chunks, memory)) ==> memory@.len() == length && chunks_of(
            chunks@,
            batches@,
            memory@,
        ),
{
    let count: usize = batches.len();
    let mut chunks: Vec<Vec<u8>> = Vec::new();
    let ghost mut memory: Seq<u8> = Seq::new(length as nat, |j: int| 0u8);
    let mut k: usize = 0;
    while k < count
        invariant
            count == batches@.len(),
            k <= count,
            length <= region_size(*region),
            memory.len() == length,
            chunks@.len() == k,
            forall|i: int|
                0 <= i < batches@.len() ==> (#[trigger] batches@[i]).offset + batches@[i].len
                    <= length,
            forall|i: int|
                0 <= i && i + 1 < batches@.len() ==> (#[trigger] batches@[i]).offset
                    + batches@[i].len <= batches@[i + 1].offset,
            forall|i: int|
                0 <= i < k ==> (#[trigger] chunks@[i])@ == memory.subrange(
                    batches@[i].offset as int,
                    batches@[i].offset + batches@[i].len,
                ),
            forall|i: int|
                0 <= i < k && k < count ==> (#[trigger] batches@[i]).offset + batches@[i].len
                    <= batches@[k as int].offset,
        decreases count - k,
    {
        let batch: OffsetLength = batches[k];
        assert(batch.offset + batch.len <= length);
        let bytes: Vec<u8> = match region_read(region, batch.offset as u64, batch.len) {
            Ok(bytes) => bytes,
            // a range inside the region is always read
            Err(_) => {
                return None;
            },
        };
        let ghost earlier = chunks@;
        let ghost before = memory;
        proof {
            memory = overwrite(before, batch.offset as int, bytes@);
            assert(memory.subrange(batch.offset as int, batch.offset + batch.len) =~= bytes@);
        }
        chunks.push(bytes);
        proof {
            assert forall|i: int| 0 <= i < k + 1 implies (#[trigger] chunks@[i])@
                == memory.subrange(
                batches@[i].offset as int,
                batches@[i].offset + batches@[i].len,
            ) by {
                if i < k {
                    assert(chunks@[i] == earlier[i]);
                    assert(batches@[i].offset + batches@[i].len <= batch.offset);
                    assert(memory.subrange(
                        batches@[i].offset as int,
                        batches@[i].offset + batches@[i].len,
                    ) =~= before.subrange(
                        batches@[i].offset as int,
                        batches@[i].offset + batches@[i].len,
                    ));
                }
            }
            if k + 1 < count {
                assert forall|i: int| 0 <= i < k + 1 implies (#[trigger] batches@[i]).offset
                    + batches@[i].len <= batches@[k + 1].offset by {
                    assert(batches@[k as int].offset + batches@[k as int].len <= batches@[k
                        + 1].offset);
                }
            }
        }
        k = k + 1;
    }
    Some((chunks, Ghost(memory)))
}

/// The batches of a region come in address order without overlap, inside the region.
proof fn lemma_batches_ordered(batches: Seq<OffsetLength>, dirty: Seq<bool>, size: int, limit: int)
    requires
        usable_page_size(size),
        pages_within(dirty, size, limit),
        describes(batches, dirty_runs(dirty), size),
    ensures
        forall|k: int|
            0 <= k < batches.len() ==> (#[trigger] batches[k]).offset + batches[k].len <= limit,
        forall|k: int|
            0 <= k && k + 1 < batches.len() ==> (#[trigger] batches[k]).offset + batches[k].len
                <= batches[k + 1].offset,
{
    let runs = dirty_runs(dirty);
    lemma_runs_shape(dirty);
    assert forall|k: int| 0 <= k < batches.len() implies (#[trigger] batches[k]).offset
        + batches[k].len <= limit by {
        lemma_batch_bounds(dirty, k, size, limit);
    }
    assert forall|k: int| 0 <= k && k + 1 < batches.len() implies (#[trigger] batches[k]).offset
        + batches[k].len <= batches[k + 1].offset by {
        lemma_batch_bounds(dirty, k, size, limit);
        let a = runs[k];
        let b = runs[k + 1];
        assert(a.0 + a.1 < b.0);
        assert(a.0 * size + a.1 * size == (a.0 + a.1) * size) by (nonlinear_arith);
        assert((a.0 + a.1) * size <= b.0 * size) by (nonlinear_arith)
            requires
                a.0 + a.1 < b.0,
                size > 0,
        ;
    }
}

/// Asks the write log of every region about each page of the region.
fn collect_logs(
    found: &Vec<&GuestRegionMmap<AtomicBitmap>>,
    sizes: &Vec<u64>,
    page_size: usize,
) -> (logs: Vec<Vec<bool>>)
    requires
        page_size > 0,
        found@.len() == sizes@.len(),
        forall|i: int| 0 <= i < sizes@.len() ==> #[trigger] sizes@[i] <= usize::MAX,
    ensures
        logs@.len() == sizes@.len(),
        forall|i: int|
            0 <= i < sizes@.len() ==> (#[trigger] logs@[i])@.len() == pages_of(
                sizes@[i] as int,
                page_size as int,
            ),
{
    let count: usize = found.len();
    let mut logs: Vec<Vec<bool>> = Vec::new();
    let mut k: usize = 0;
    while k < count
        invariant
            page_size > 0,
            count == found@.len(),
            count == sizes@.len(),
            k <= count,
            forall|i: int| 0 <= i < sizes@.len() ==> #[trigger] sizes@[i] <= usize::MAX,
            logs@.len() == k,
            forall|i: int|
                0 <= i < k ==> (#[trigger] logs@[i])@.len() == pages_of(
                    sizes@[i] as int,
                    page_size as int,
                ),
        decreases count - k,
    {
        assert(sizes@[k as int] <= usize::MAX);
        let log: Vec<bool> = collect_dirty_log(found[k], sizes[k] as usize, page_size);
        let ghost earlier = logs@;
        logs.push(log);
        proof {
            assert forall|i: int| 0 <= i < k + 1 implies (#[trigger] logs@[i])@.len() == pages_of(
                sizes@[i] as int,
                page_size as int,
            ) by {
                if i < k {
                    assert(logs@[i] == earlier[i]);
                }
            }
        }
        k = k + 1;
    }
    logs
}

/// The write logs as mathematical sequences.
pub open spec fn log_views(logs: Seq<Vec<bool>>) -> Seq<Seq<bool>> {
    Seq::new(logs.len(), |i: int| logs[i]@)
}

/// Reads the bytes of the batches of every region, and makes a plan of each
/// region's place, batches and bytes. There are then contents of the regions that
/// the plans are made of.
fn read_plans(
    found: &Vec<&GuestRegionMmap<AtomicBitmap>>,
    sizes: &Vec<u64>,
    offsets: &Vec<usize>,
    batches: &Vec<Vec<OffsetLength>>,
    page_size: usize,
    capacity: usize,
    Ghost(bitmaps): Ghost<Seq<Vec<u64>>>,
    Ghost(logs): Ghost<Seq<Vec<bool>>>,
) -> (r: Option<(Vec<RegionPlan>, Ghost<Seq<Seq<u8>>>)>)
    requires
        usable_page_size(page_size as int),
        found@.len() == sizes@.len(),
        offsets@.len() == sizes@.len(),
        batches@.len() == sizes@.len(),
        forall|i: int| 0 <= i < found@.len() ==> #[trigger] sizes@[i] == region_size(*found@[i]),
        forall|i: int|
            0 <= i < sizes@.len() ==> (#[trigger] offsets@[i]) + sizes@[i] <= capacity
                && offsets@[i] as int % (page_size as int) == 0,
        slots_within(sizes@, bitmaps, logs, page_size as int),
        forall|i: int|
            0 <= i < sizes@.len() ==> describes(
                (#[trigger] batches@[i])@,
                dirty_runs(slot_dirty(bitmaps, logs, i)),
                page_size as int,
            ),
    ensures
        r is Some,
        r matches Some((plans, contents)) ==> {
            &&& contents_of(contents@, ints(sizes@))
            &&& plans@.len() == sizes@.len()
            &&& plans_fit(plan_views(plans@), capacity as int)
            &&& forall|i: int|
                0 <= i < plans@.len() ==> plan_of(
                    #[trigger] plan_views(plans@)[i],
                    RegionView {
                        offset: offsets@[i] as int,
                        memory: contents@[i],
                        dirty: slot_dirty(bitmaps, logs, i),
                    },
                    page_size as int,
                )
        },
{
    let ghost size = page_size as int;
    let count: usize = found.len();
    let mut plans: Vec<RegionPlan> = Vec::new();
    let ghost mut contents: Seq<Seq<u8>> = Seq::empty();
    let mut k: usize = 0;
    while k < count
        invariant
            usable_page_size(size),
            size == page_size,
            count == found@.len(),
            count == sizes@.len(),
            offsets@.len() == sizes@.len(),
            batches@.len() == sizes@.len(),
            k <= count,
            forall|i: int|
                0 <= i < found@.len() ==> #[trigger] sizes@[i] == region_size(*found@[i]),
            forall|i: int|
                0 <= i < sizes@.len() ==> (#[trigger] offsets@[i]) + sizes@[i] <= capacity
                    && offsets@[i] as int % size == 0,
            slots_within(sizes@, bitmaps, logs, size),
            forall|i: int|
                0 <= i < sizes@.len() ==> describes(
                    (#[trigger] batches@[i])@,
                    dirty_runs(slot_dirty(bitmaps, logs, i)),
                    size,
                ),
            plans@.len() == k,
            contents.len() == k,
            forall|i: int| 0 <= i < k ==> (#[trigger] contents[i]).len() == sizes@[i],
            forall|i: int|
                0 <= i < k ==> plan_fits_at(
                    (#[trigger] plans@[i])@,
                    offsets@[i] as int,
                    slot_dirty(bitmaps, logs, i),
                    contents[i],
                    size,
                    capacity as int,
                ),
        decreases count - k,
    {
        let region = found[k];
        let offset: usize = offsets[k];
        assert(offsets@[k as int] + sizes@[k as int] <= capacity);
        assert(sizes@[k as int] == region_size(*found@[k as int]));
        let length: usize = sizes[k] as usize;
        let ghost dirty = slot_dirty(bitmaps, logs, k as int);
        proof {
            assert(pages_within(dirty, size, sizes@[k as int] as int));
            assert(describes(batches@[k as int]@, dirty_runs(dirty), size));
            lemma_batches_ordered(batches@[k as int]@, dirty, size, length as int);
        }
        let (chunks, Ghost(content)) = match read_batches(region, &batches[k], length) {
            Some(read) => read,
            None => {
                return None;
            },
        };
        let plan = RegionPlan {
            offset,
            batches: vstd::slice::slice_to_vec(batches[k].as_slice()),
            chunks,
        };
        proof {
            let view = RegionView { offset: offset as int, memory: content, dirty };
            assert(plan_of(plan@, view, size)) by {
                assert forall|i: int| 0 <= i < plan@.batches.len() implies #[trigger] plan@.chunks[i]
                    == view.memory.subrange(
                    plan@.batches[i].offset as int,
                    plan@.batches[i].offset + plan@.batches[i].len,
                ) by {
                    assert(plan@.chunks[i] == plan.chunks@[i]@);
                }
            }
            lemma_plan_fits(plan@, view, size, capacity as int);
        }
        let ghost earlier = plans@;
        let ghost earlier_contents = contents;
        plans.push(plan);
        proof {
            contents = contents.push(content);
            assert forall|i: int| 0 <= i < k + 1 implies plan_fits_at(
                (#[trigger] plans@[i])@,
                offsets@[i] as int,
                slot_dirty(bitmaps, logs, i),
                contents[i],
                size,
                capacity as int,
            ) by {
                if i < k {
                    assert(plans@[i] == earlier[i]);
                    assert(contents[i] == earlier_contents[i]);
                }
            }
            assert forall|i: int| 0 <= i < k + 1 implies (#[trigger] contents[i]).len()
                == sizes@[i] by {
                if i < k {
                    assert(contents[i] == earlier_contents[i]);
                }
            }
        }
        k = k + 1;
    }
    proof {
        assert forall|i: int| 0 <= i < plans@.len() implies plan_of(
            #[trigger] plan_views(plans@)[i],
            RegionView {
                offset: offsets@[i] as int,
                memory: contents[i],
                dirty: slot_dirty(bitmaps, logs, i),
            },
            size,
        ) && plan_fits(plan_views(plans@)[i], capacity as int) by {
            assert(plan_fits_at(
                plans@[i]@,
                offsets@[i] as int,
                slot_dirty(bitmaps, logs, i),
                contents[i],
                size,
                capacity as int,
            ));
        }
        assert(contents_of(contents, ints(sizes@))) by {
            assert forall|i: int| 0 <= i < sizes@.len() implies (#[trigger] contents[i]).len()
                == ints(sizes@)[i] by {}
        }
    }
    Some((plans, Ghost(contents)))
}

/// Whether `plan` is made of the batches and bytes of the region at `offset` with
/// the given dirty indicator and content, and can be applied to a baseline of
/// `capacity` bytes.
spec fn plan_fits_at(
    plan: PlanView,
    offset: int,
    dirty: Seq<bool>,
    content: Seq<u8>,
    size: int,
    capacity: int,
) -> bool {
    &&& plan_of(plan, RegionView { offset, memory: content, dirty }, size)
    &&& plan_fits(plan, capacity)
}

/// The regions of a guest, as a pass that is not refused reads them, lie inside
/// the baseline on page boundaries, and their bitmaps cover them.
proof fn lemma_observed_layout(
    sizes: Seq<int>,
    bitmaps: Seq<Vec<u64>>,
    logs: Seq<Seq<bool>>,
    contents: Seq<Seq<u8>>,
    size: int,
    capacity: int,
)
    requires
        size > 0,
        forall|i: int| 0 <= i < sizes.len() ==> 0 <= #[trigger] sizes[i],
        total(sizes) <= capacity,
        sizes_aligned(sizes, size),
        slots_cover_sizes(sizes, bitmaps, size),
        contents_of(contents, sizes),
    ensures
        regions_fit(observed_regions(sizes, bitmaps, logs, contents), capacity),
        regions_aligned(observed_regions(sizes, bitmaps, logs, contents), size),
        regions_covered(observed_regions(sizes, bitmaps, logs, contents), size),
{
    let regions = observed_regions(sizes, bitmaps, logs, contents);
    assert forall|i: int| 0 <= i < regions.len() implies 0 <= (#[trigger] regions[i]).offset
        && regions[i].offset + regions[i].memory.len() <= capacity && regions[i].offset % size == 0
        && regions[i].memory.len() <= regions[i].dirty.len() * size by {
        lemma_total_step(sizes, i);
        lemma_total_monotone(sizes, i);
        lemma_total_monotone(sizes, i + 1);
        assert(total(sizes.take(i)) % size == 0);
        assert(contents[i].len() == sizes[i]);
        assert(sizes[i] <= 64 * bitmaps[i]@.len() * size);
        assert(regions[i].dirty.len() == 64 * bitmaps[i]@.len());
    }
}

/// Perform a dirty-page based snapshot: one synchronization pass over the memory
/// of the guest, with the hypervisor's dirty bitmap of each memory slot in
/// `dirty_bitmap`, in the order of the regions.
///
/// The first pass of an engine captures the baseline and produces no diff. Every
/// later pass asks the write log of each region about its pages, finds the batches
/// of each region from the hypervisor's bitmap and the write log, reads the bytes
/// of each batch, sends them through the diff adapter at the batch's offset in the
/// baseline, and records the batch's descriptor. It returns the size to signal the
/// worker with, the number of diff words accumulated, or `None` where nothing is to
/// be signalled. Nothing is changed before everything has been read.
pub fn dirtypage_memory_snapshot(
    engine: &mut SyncState,
    memory: &GuestMemoryMmap<AtomicBitmap>,
    dirty_bitmap: &[Vec<u64>],
    page_size: usize,
) -> (r: Result<Option<u64>, SyncError>)
    ensures
        guest_pass_result(
            old(engine)@,
            region_sizes(*memory),
            dirty_bitmap@,
            page_size as int,
            final(engine)@,
            r,
        ),
{
    if !engine.is_copied() {
        return match full_memory_snapshot(engine, memory) {
            Ok(()) => {
                proof {
                    let sizes = region_sizes(*memory);
                    let contents = choose|contents: Seq<Seq<u8>>|
                        {
                            &&& contents_of(contents, sizes)
                            &&& regions_fit(
                                #[trigger] captured_regions(sizes, contents),
                                old(engine)@.baseline.len() as int,
                            )
                            &&& engine@ == SyncView {
                                initialized: true,
                                baseline: capture(
                                    old(engine)@.baseline,
                                    captured_regions(sizes, contents),
                                ),
                                ..old(engine)@
                            }
                        };
                    assert(pass_result(
                        old(engine)@,
                        captured_regions(sizes, contents),
                        page_size as int,
                        engine@,
                        Ok::<Option<u64>, SyncError>(None),
                    ));
                }
                Ok(None)
            },
            Err(e) => Err(e),
        };
    }
    if page_size == 0 || page_size % 8 != 0 {
        return Err(SyncError::PageSize);
    }
    let found = memory_regions(memory);
    let sizes: Vec<u64> = measure(&found);
    let ghost all = region_sizes(*memory);
    let ghost size = page_size as int;
    proof {
        assert(ints(sizes@) =~= all);
    }
    let capacity: usize = engine.prior_buffer.len();
    let offsets: Vec<usize> = match lay_out(&sizes, capacity) {
        Some(offsets) => offsets,
        None => {
            return Err(SyncError::Layout);
        },
    };
    if !on_page_boundaries(&offsets, page_size) {
        assert(!sizes_aligned(all, size)) by {
            if sizes_aligned(all, size) {
                assert forall|i: int| 0 <= i < offsets@.len() implies (#[trigger] offsets@[i]) as int
                    % size == 0 by {
                    assert(total(all.take(i)) % size == 0);
                }
            }
        }
        return Err(SyncError::Layout);
    }
    proof {
        assert(sizes_aligned(all, size)) by {
            assert forall|i: int| 0 <= i < all.len() implies #[trigger] total(all.take(i)) % size
                == 0 by {
                assert(offsets@[i] as int % size == 0);
            }
        }
        assert forall|i: int| 0 <= i < sizes@.len() implies #[trigger] sizes@[i]
            <= usize::MAX by {
            assert(offsets@[i] + sizes@[i] <= capacity);
        }
        assert forall|i: int| 0 <= i < all.len() implies 0 <= #[trigger] all[i] by {
            assert(all[i] == sizes@[i]);
        }
    }
    if !slots_cover(&sizes, dirty_bitmap, page_size) {
        return Err(SyncError::DirtyBitmap);
    }
    let logs: Vec<Vec<bool>> = collect_logs(&found, &sizes, page_size);
    let ghost seen = log_views(logs@);
    proof {
        assert(logs_of(seen, all, size)) by {
            assert forall|i: int| 0 <= i < all.len() implies (#[trigger] seen[i]).len() == pages_of(
                all[i],
                size,
            ) by {
                assert(logs@[i]@.len() == pages_of(sizes@[i] as int, size));
            }
        }
    }
    let batches: Vec<Vec<OffsetLength>> = match scan_slots(&sizes, dirty_bitmap, &logs, page_size) {
        Some(batches) => batches,
        None => {
            proof {
                let blank = Seq::new(all.len(), |i: int| Seq::new(all[i] as nat, |j: int| 0u8));
                let regions = observed_regions(all, dirty_bitmap@, seen, blank);
                assert(contents_of(blank, all));
                lemma_observed_layout(all, dirty_bitmap@, seen, blank, size, capacity as int);
                let i = choose|i: int|
                    0 <= i < sizes@.len() && !pages_within(
                        #[trigger] slot_dirty(dirty_bitmap@, logs@, i),
                        size,
                        sizes@[i] as int,
                    );
                assert(regions[i].dirty == slot_dirty(dirty_bitmap@, logs@, i));
                assert(!pages_within(regions[i].dirty, size, regions[i].memory.len() as int));
                assert(!regions_within(regions, size));
                assert(pass_result(
                    engine@,
                    regions,
                    size,
                    engine@,
                    Err::<Option<u64>, SyncError>(SyncError::RegionWrite),
                ));
            }
            return Err(SyncError::RegionWrite);
        },
    };
    let (plans, Ghost(contents)) = match read_plans(
        &found,
        &sizes,
        &offsets,
        &batches,
        page_size,
        capacity,
        Ghost(dirty_bitmap@),
        Ghost(logs@),
    ) {
        Some(read) => read,
        // batches inside their regions are always read
        None => {
            return Err(SyncError::RegionWrite);
        },
    };
    let ghost regions = observed_regions(all, dirty_bitmap@, seen, contents);
    proof {
        lemma_observed_layout(all, dirty_bitmap@, seen, contents, size, capacity as int);
        assert forall|i: int| 0 <= i < regions.len() implies pages_within(
            (#[trigger] regions[i]).dirty,
            size,
            regions[i].memory.len() as int,
        ) by {
            assert(pages_within(slot_dirty(dirty_bitmap@, logs@, i), size, sizes@[i] as int));
            assert(contents[i].len() == all[i]);
        }
        assert forall|i: int| 0 <= i < plans@.len() implies plan_of(
            #[trigger] plan_views(plans@)[i],
            regions[i],
            size,
        ) by {
            assert(offsets@[i] == total(all.take(i)));
            assert(regions[i] == RegionView {
                offset: offsets@[i] as int,
                memory: contents[i],
                dirty: slot_dirty(dirty_bitmap@, logs@, i),
            });
        }
        lemma_plans_are_pass(engine@, plan_views(plans@), regions, size);
    }
    let signal: u64 = diff_plans(engine, plans.as_slice());
    proof {
        assert(pass_result(
            old(engine)@,
            regions,
            size,
            engine@,
            Ok::<Option<u64>, SyncError>(Some(signal)),
        ));
    }
    Ok(Some(signal))
}

/// Synchronize snapshot memory: performs one synchronization pass over the memory
/// of the guest, the capture of the baseline on an engine that has none and a
/// dirty-page pass otherwise.
pub fn sync_snapshot_memory(
    engine: &mut SyncState,
    memory: &GuestMemoryMmap<AtomicBitmap>,
    dirty_bitmap: &[Vec<u64>],
    page_size: usize,
) -> (r: Result<Option<u64>, SyncError>)
    ensures
        guest_pass_result(
            old(engine)@,
            region_sizes(*memory),
            dirty_bitmap@,
            page_size as int,
            final(engine)@,
            r,
        ),
{
    dirtypage_memory_snapshot(engine, memory, dirty_bitmap, page_size)
}

} // verus!
