//! What a synchronization pass leaves in the engine: where the baseline changes,
//! which descriptors are added, and how many diff words.

use crate::batch::{
    dirty_runs, lemma_clean_has_no_runs, lemma_multiple, lemma_runs_cover, lemma_runs_shape,
    pages_within,
};
use crate::model::{
    all_clean, apply_batch, apply_runs, capture, in_some_region, overwrite, pass_result,
    regions_aligned, regions_disjoint, regions_fit, regions_within, sync_region, sync_regions,
    usable_page_size, RegionView,
};
use crate::sync::{lemma_batch_bounds, SyncError};
use crate::sync_backend::{OffsetLength, SyncView};
use crate::words::{word_at, xor_words};
use vstd::prelude::*;

verus! {

/// XOR round trip: when the diff adapter takes `new` over a baseline `prior` of the
/// same word-aligned length, the baseline becomes `new`, and the diff holds one word
/// for each word of the buffers, the XOR of the two words in that place. The XOR of
/// a word of the old baseline with its diff word is the new word.
pub proof fn lemma_xor_round_trip(prior: Seq<u8>, new: Seq<u8>)
    requires
        prior.len() == new.len(),
        new.len() % 8 == 0,
    ensures
        overwrite(prior, 0, new) == new,
        xor_words(new, prior.subrange(0, new.len() as int)).len() == new.len() / 8,
        forall|i: int|
            0 <= i < new.len() / 8 ==> #[trigger] xor_words(
                new,
                prior.subrange(0, new.len() as int),
            )[i] == word_at(prior, i) ^ word_at(new, i),
        forall|i: int|
            0 <= i < new.len() / 8 ==> word_at(prior, i) ^ #[trigger] xor_words(
                new,
                prior.subrange(0, new.len() as int),
            )[i] == word_at(new, i),
{
    assert(overwrite(prior, 0, new) =~= new);
    assert(prior.subrange(0, new.len() as int) =~= prior);
    assert forall|i: int| 0 <= i < new.len() / 8 implies #[trigger] xor_words(new, prior)[i]
        == word_at(prior, i) ^ word_at(new, i) && word_at(prior, i) ^ xor_words(new, prior)[i]
        == word_at(new, i) by {
        let a: u64 = word_at(prior, i);
        let b: u64 = word_at(new, i);
        assert(b ^ a == a ^ b) by (bit_vector);
        assert(a ^ (b ^ a) == b) by (bit_vector);
    }
}

/// An incremental pass over regions without a dirty page leaves the engine as it was.
proof fn lemma_clean_regions(s: SyncView, regions: Seq<RegionView>, size: int)
    requires
        all_clean(regions),
    ensures
        sync_regions(s, regions, size) == s,
        regions_within(regions, size),
    decreases regions.len(),
{
    if regions.len() > 0 {
        let rest = regions.drop_last();
        assert forall|i: int, p: int| 0 <= i < rest.len() && 0 <= p < rest[i].dirty.len() implies !(
        #[trigger] rest[i].dirty[p]) by {
            assert(rest[i] == regions[i]);
        }
        lemma_clean_regions(s, rest, size);
        let last = regions.last();
        assert forall|p: int| 0 <= p < last.dirty.len() implies !last.dirty[p] by {
            assert(!regions[regions.len() - 1].dirty[p]);
        }
        lemma_clean_has_no_runs(last.dirty);
        assert forall|i: int| 0 <= i < regions.len() implies pages_within(
            (#[trigger] regions[i]).dirty,
            size,
            regions[i].memory.len() as int,
        ) by {
            assert forall|p: int| 0 <= p < regions[i].dirty.len() implies !regions[i].dirty[p] by {
                assert(!regions[i].dirty[p]);
            }
        }
    }
}

/// No-op when nothing is dirty: with a baseline captured and no page marked, a pass
/// adds no diff word and no descriptor and leaves the baseline unchanged; where it
/// succeeds, it asks for a signal of the size already accumulated.
pub proof fn lemma_clean_pass_changes_nothing(
    before: SyncView,
    regions: Seq<RegionView>,
    size: int,
    after: SyncView,
    r: Result<Option<u64>, SyncError>,
)
    requires
        before.initialized,
        all_clean(regions),
        pass_result(before, regions, size, after, r),
    ensures
        after == before,
        r is Ok ==> r == Ok::<Option<u64>, SyncError>(Some(before.diff_words.len() as u64)),
{
    lemma_clean_regions(before, regions, size);
}

/// Bootstrap captures guest memory: after a full copy of regions that do not
/// overlap, the baseline has its old length, holds the content of each region at the
/// region's offset, and is unchanged outside the regions.
pub proof fn lemma_capture_holds_memory(baseline: Seq<u8>, regions: Seq<RegionView>)
    requires
        regions_fit(regions, baseline.len() as int),
        regions_disjoint(regions),
    ensures
        capture(baseline, regions).len() == baseline.len(),
        forall|i: int|
            0 <= i < regions.len() ==> capture(baseline, regions).subrange(
                (#[trigger] regions[i]).offset,
                regions[i].offset + regions[i].memory.len(),
            ) == regions[i].memory,
        forall|at: int|
            0 <= at < baseline.len() && !in_some_region(regions, at) ==> capture(
                baseline,
                regions,
            )[at] == baseline[at],
    decreases regions.len(),
{
    if regions.len() > 0 {
        let rest = regions.drop_last();
        let last = regions.last();
        let n = regions.len() - 1;
        assert(regions[n] == last);
        assert forall|i: int| 0 <= i < rest.len() implies rest[i] == regions[i] by {}
        assert(regions_fit(rest, baseline.len() as int));
        assert(regions_disjoint(rest)) by {
            assert forall|i: int, j: int| 0 <= i < j < rest.len() implies (#[trigger] rest[i]).offset
                + rest[i].memory.len() <= (#[trigger] rest[j]).offset || rest[j].offset
                + rest[j].memory.len() <= rest[i].offset by {
                assert(rest[i] == regions[i] && rest[j] == regions[j]);
            }
        }
        lemma_capture_holds_memory(baseline, rest);
        let inner = capture(baseline, rest);
        let outer = capture(baseline, regions);
        assert(outer == overwrite(inner, last.offset, last.memory));
        assert forall|i: int| 0 <= i < regions.len() implies outer.subrange(
            (#[trigger] regions[i]).offset,
            regions[i].offset + regions[i].memory.len(),
        ) == regions[i].memory by {
            let got = outer.subrange(regions[i].offset, regions[i].offset + regions[i].memory.len());
            if i < n {
                assert(rest[i] == regions[i]);
                let had = inner.subrange(rest[i].offset, rest[i].offset + rest[i].memory.len());
                assert(had == rest[i].memory);
                assert forall|b: int| 0 <= b < got.len() implies got[b] == regions[i].memory[b] by {
                    assert(had[b] == inner[regions[i].offset + b]);
                }
                assert(got =~= regions[i].memory);
            } else {
                assert(got =~= last.memory);
            }
        }
        assert forall|at: int|
            0 <= at < baseline.len() && !in_some_region(regions, at) implies outer[at]
            == baseline[at] by {
            assert(!(last.offset <= at < last.offset + last.memory.len())) by {
                if last.offset <= at < last.offset + last.memory.len() {
                    assert(regions[n].offset <= at < regions[n].offset + regions[n].memory.len());
                    assert(in_some_region(regions, at));
                }
            }
            assert(!in_some_region(rest, at)) by {
                if in_some_region(rest, at) {
                    let i = choose|i: int|
                        0 <= i < rest.len() && (#[trigger] rest[i]).offset <= at < rest[i].offset
                            + rest[i].memory.len();
                    assert(rest[i] == regions[i]);
                    assert(regions[i].offset <= at < regions[i].offset + regions[i].memory.len());
                    assert(in_some_region(regions, at));
                }
            }
        }
    }
}


/// The first pass captures guest memory: on an engine without a baseline, over
/// regions that lie inside the baseline and do not overlap, a pass succeeds and
/// signals nothing, leaves the diff buffers as they were, and leaves an engine that
/// has a baseline, of the old length, which holds every byte of every region at the
/// region's offset.
pub proof fn lemma_first_pass_captures_memory(
    before: SyncView,
    regions: Seq<RegionView>,
    size: int,
    after: SyncView,
    r: Result<Option<u64>, SyncError>,
)
    requires
        !before.initialized,
        regions_fit(regions, before.baseline.len() as int),
        regions_disjoint(regions),
        pass_result(before, regions, size, after, r),
    ensures
        r == Ok::<Option<u64>, SyncError>(None),
        after.initialized,
        after.diff_words == before.diff_words,
        after.descriptors == before.descriptors,
        after.baseline.len() == before.baseline.len(),
        forall|i: int, k: int|
            0 <= i < regions.len() && 0 <= k < regions[i].memory.len()
                ==> #[trigger] after.baseline[regions[i].offset + k] == regions[i].memory[k],
{
    lemma_capture_holds_memory(before.baseline, regions);
    assert forall|i: int, k: int|
        0 <= i < regions.len() && 0 <= k < regions[i].memory.len()
        implies #[trigger] after.baseline[regions[i].offset + k] == regions[i].memory[k] by {
        let part = after.baseline.subrange(
            regions[i].offset,
            regions[i].offset + regions[i].memory.len(),
        );
        assert(part == regions[i].memory);
        assert(part[k] == after.baseline[regions[i].offset + k]);
    }
}

/// A pass over regions never resizes the baseline and never takes the baseline away.
pub proof fn lemma_pass_keeps_the_baseline_in_place(
    s: SyncView,
    regions: Seq<RegionView>,
    size: int,
)
    ensures
        sync_regions(s, regions, size).initialized == s.initialized,
        sync_regions(s, regions, size).baseline.len() == s.baseline.len(),
    decreases regions.len(),
{
    if regions.len() > 0 {
        lemma_pass_keeps_the_baseline_in_place(s, regions.drop_last(), size);
        let mid = sync_regions(s, regions.drop_last(), size);
        lemma_batches_keep_the_baseline_in_place(
            mid,
            regions.last(),
            dirty_runs(regions.last().dirty),
            size,
        );
    }
}

/// Batches never resize the baseline and never take the baseline away.
proof fn lemma_batches_keep_the_baseline_in_place(
    s: SyncView,
    region: RegionView,
    runs: Seq<(int, int)>,
    size: int,
)
    ensures
        apply_runs(s, region, runs, size).initialized == s.initialized,
        apply_runs(s, region, runs, size).baseline.len() == s.baseline.len(),
    decreases runs.len(),
{
    if runs.len() > 0 {
        lemma_batches_keep_the_baseline_in_place(s, region, runs.drop_last(), size);
    }
}

/// Whether byte `at` of the memory image lies in a dirty page of `region`.
pub open spec fn in_dirty_page(region: RegionView, size: int, at: int) -> bool {
    &&& region.offset <= at
    &&& (at - region.offset) / size < region.dirty.len()
    &&& region.dirty[(at - region.offset) / size]
}

/// Whether byte `at` of the memory image lies in a dirty page of one of the regions.
pub open spec fn in_some_dirty_page(regions: Seq<RegionView>, size: int, at: int) -> bool {
    exists|i: int| 0 <= i < regions.len() && in_dirty_page(#[trigger] regions[i], size, at)
}

/// The sum of the lengths of descriptors.
pub open spec fn total_len(descriptors: Seq<OffsetLength>) -> int
    decreases descriptors.len(),
{
    if descriptors.len() == 0 {
        0
    } else {
        total_len(descriptors.drop_last()) + descriptors.last().len
    }
}

/// Whether the diff words are as many as the descriptors account for: one word for
/// every eight bytes described.
pub open spec fn words_match_descriptors(s: SyncView) -> bool {
    8 * s.diff_words.len() == total_len(s.descriptors)
}

/// Whether byte `at` lies in the byte range of one of the first `count` runs.
spec fn in_runs(region: RegionView, runs: Seq<(int, int)>, size: int, count: int, at: int) -> bool {
    exists|k: int|
        0 <= k < count && region.offset + (#[trigger] runs[k]).0 * size <= at < region.offset + (
        runs[k].0 + runs[k].1) * size
}

/// A byte lies in a page with a given index exactly when it lies between the
/// page's bounds.
proof fn lemma_page_of(rel: int, size: int, first: int, count: int)
    requires
        size > 0,
    ensures
        (first * size <= rel < (first + count) * size) <==> (first <= rel / size < first + count),
{
    vstd::arithmetic::div_mod::lemma_fundamental_div_mod(rel, size);
    vstd::arithmetic::div_mod::lemma_mod_bound(rel, size);
    let q = rel / size;
    assert(first <= q ==> first * size <= q * size) by (nonlinear_arith)
        requires
            size > 0,
    ;
    assert(q < first ==> (q + 1) * size <= first * size) by (nonlinear_arith)
        requires
            size > 0,
    ;
    assert(q < first + count ==> (q + 1) * size <= (first + count) * size) by (nonlinear_arith)
        requires
            size > 0,
    ;
    assert(first + count <= q ==> (first + count) * size <= q * size) by (nonlinear_arith)
        requires
            size > 0,
    ;
    assert((q + 1) * size == q * size + size) by (nonlinear_arith);
    assert(size * q == q * size) by (nonlinear_arith);
}

/// Whether byte `at` lies in the byte range of `run`.
spec fn in_run(region: RegionView, run: (int, int), size: int, at: int) -> bool {
    region.offset + run.0 * size <= at < region.offset + (run.0 + run.1) * size
}

/// The engine after one batch: the baseline keeps its length and holds the region's
/// bytes in the batch's range and its old bytes elsewhere, the batch's descriptor is
/// added, and the diff words grow by one for every eight bytes of the batch.
proof fn lemma_apply_batch(s: SyncView, region: RegionView, run: (int, int), size: int)
    requires
        0 <= region.offset,
        region.offset + region.memory.len() <= s.baseline.len() <= usize::MAX,
        0 <= run.0 * size,
        0 <= run.1 * size,
        (run.0 + run.1) * size == run.0 * size + run.1 * size,
        run.0 * size + run.1 * size <= region.memory.len(),
        (run.1 * size) % 8 == 0,
    ensures
        ({
            let after = apply_batch(s, region, run, size);
            &&& after.initialized == s.initialized
            &&& after.baseline.len() == s.baseline.len()
            &&& forall|at: int|
                0 <= at < s.baseline.len() ==> #[trigger] after.baseline[at] == if in_run(
                    region,
                    run,
                    size,
                    at,
                ) {
                    region.memory[at - region.offset]
                } else {
                    s.baseline[at]
                }
            &&& after.descriptors.len() == s.descriptors.len() + 1
            &&& after.descriptors.drop_last() == s.descriptors
            &&& after.descriptors.last().offset == region.offset + run.0 * size
            &&& after.descriptors.last().len == run.1 * size
            &&& 8 * after.diff_words.len() == 8 * s.diff_words.len() + run.1 * size
            &&& total_len(after.descriptors) == total_len(s.descriptors) + run.1 * size
        }),
{
    let after = apply_batch(s, region, run, size);
    let from = run.0 * size;
    let len = run.1 * size;
    let at0 = region.offset + from;
    let chunk = region.memory.subrange(from, from + len);
    assert(chunk.len() == len);
    assert(after.descriptors.drop_last() =~= s.descriptors);
    assert(after.descriptors.last() == OffsetLength { offset: at0 as usize, len: len as usize });
    assert(after.diff_words.len() == s.diff_words.len() + len / 8);
    assert forall|at: int| 0 <= at < s.baseline.len() implies #[trigger] after.baseline[at]
        == if in_run(region, run, size, at) {
        region.memory[at - region.offset]
    } else {
        s.baseline[at]
    } by {
        if at0 <= at < at0 + len {
            assert(after.baseline[at] == chunk[at - at0]);
        }
    }
}

/// The engine after the first `count` batches of a region: the baseline keeps its
/// length and holds the region's bytes in the batches' ranges and its old bytes
/// elsewhere, one descriptor was added for each batch, and the diff words grew by
/// one for every eight bytes of the batches.
proof fn lemma_apply_runs(s: SyncView, region: RegionView, size: int, count: int)
    requires
        usable_page_size(size),
        0 <= region.offset,
        region.offset + region.memory.len() <= s.baseline.len() <= usize::MAX,
        pages_within(region.dirty, size, region.memory.len() as int),
        0 <= count <= dirty_runs(region.dirty).len(),
    ensures
        ({
            let runs = dirty_runs(region.dirty);
            let after = apply_runs(s, region, runs.take(count), size);
            &&& after.initialized == s.initialized
            &&& after.baseline.len() == s.baseline.len()
            &&& forall|at: int|
                0 <= at < s.baseline.len() ==> #[trigger] after.baseline[at] == if in_runs(
                    region,
                    runs,
                    size,
                    count,
                    at,
                ) {
                    region.memory[at - region.offset]
                } else {
                    s.baseline[at]
                }
            &&& after.descriptors.len() == s.descriptors.len() + count
            &&& forall|k: int|
                0 <= k < s.descriptors.len() ==> #[trigger] after.descriptors[k] == s.descriptors[k]
            &&& forall|k: int|
                0 <= k < count ==> (#[trigger] after.descriptors[s.descriptors.len() + k]).offset
                    == region.offset + runs[k].0 * size && after.descriptors[s.descriptors.len()
                    + k].len == runs[k].1 * size
            &&& 8 * after.diff_words.len() - total_len(after.descriptors) == 8 * s.diff_words.len()
                - total_len(s.descriptors)
        }),
    decreases count,
{
    let runs = dirty_runs(region.dirty);
    if count == 0 {
        assert(runs.take(0).len() == 0);
    } else {
        let m = count - 1;
        let run = runs[m];
        lemma_apply_runs(s, region, size, m);
        assert(runs.take(count).drop_last() =~= runs.take(m));
        assert(runs.take(count).last() == run);
        let before = apply_runs(s, region, runs.take(m), size);
        let after = apply_runs(s, region, runs.take(count), size);
        assert(after == apply_batch(before, region, run, size));
        lemma_batch_bounds(region.dirty, m, size, region.memory.len() as int);
        lemma_apply_batch(before, region, run, size);
        assert forall|at: int| 0 <= at < s.baseline.len() implies #[trigger] after.baseline[at]
            == if in_runs(region, runs, size, count, at) {
            region.memory[at - region.offset]
        } else {
            s.baseline[at]
        } by {
            lemma_in_runs_step(region, runs, size, m, at);
        }
        assert forall|k: int| 0 <= k < count implies (#[trigger] after.descriptors[s.descriptors.len()
            + k]).offset == region.offset + runs[k].0 * size && after.descriptors[s.descriptors.len()
            + k].len == runs[k].1 * size by {
            if k < m {
                assert(after.descriptors.drop_last()[s.descriptors.len() + k]
                    == before.descriptors[s.descriptors.len() + k]);
            } else {
                assert(after.descriptors[s.descriptors.len() + k] == after.descriptors.last());
            }
        }
        assert forall|k: int| 0 <= k < s.descriptors.len() implies #[trigger] after.descriptors[k]
            == s.descriptors[k] by {
            assert(after.descriptors.drop_last()[k] == before.descriptors[k]);
        }
    }
}

/// A byte lies in one of the first `m + 1` runs exactly when it lies in one of the
/// first `m` or in run `m`.
proof fn lemma_in_runs_step(region: RegionView, runs: Seq<(int, int)>, size: int, m: int, at: int)
    requires
        0 <= m < runs.len(),
    ensures
        in_runs(region, runs, size, m + 1, at) <==> (in_runs(region, runs, size, m, at) || in_run(
            region,
            runs[m],
            size,
            at,
        )),
{
    if in_runs(region, runs, size, m, at) {
        let k = choose|k: int|
            0 <= k < m && region.offset + (#[trigger] runs[k]).0 * size <= at < region.offset + (
            runs[k].0 + runs[k].1) * size;
        assert(0 <= k < m + 1);
    }
    if in_run(region, runs[m], size, at) {
        assert(region.offset + runs[m].0 * size <= at < region.offset + (runs[m].0 + runs[m].1)
            * size);
    }
    if in_runs(region, runs, size, m + 1, at) {
        let k = choose|k: int|
            0 <= k < m + 1 && region.offset + (#[trigger] runs[k]).0 * size <= at < region.offset
                + (runs[k].0 + runs[k].1) * size;
        if k < m {
            assert(in_runs(region, runs, size, m, at));
        }
    }
}

/// The byte ranges of a region's runs are its dirty pages.
proof fn lemma_runs_are_dirty_pages(region: RegionView, size: int, at: int)
    requires
        size > 0,
    ensures
        in_runs(region, dirty_runs(region.dirty), size, dirty_runs(region.dirty).len() as int, at)
            <==> in_dirty_page(region, size, at),
{
    let runs = dirty_runs(region.dirty);
    let rel = at - region.offset;
    lemma_runs_shape(region.dirty);
    if in_runs(region, runs, size, runs.len() as int, at) {
        let k = choose|k: int|
            0 <= k < runs.len() && region.offset + (#[trigger] runs[k]).0 * size <= at
                < region.offset + (runs[k].0 + runs[k].1) * size;
        lemma_page_of(rel, size, runs[k].0, runs[k].1);
        lemma_multiple(runs[k].0, size);
        assert(region.dirty[rel / size]);
    }
    if in_dirty_page(region, size, at) {
        let p = rel / size;
        vstd::arithmetic::div_mod::lemma_div_pos_is_pos(rel, size);
        lemma_runs_cover(region.dirty, p);
        let k = choose|k: int|
            0 <= k < runs.len() && (#[trigger] runs[k]).0 <= p < runs[k].0 + runs[k].1;
        lemma_page_of(rel, size, runs[k].0, runs[k].1);
    }
}

/// A byte in a dirty page of a region lies inside the region's content.
proof fn lemma_dirty_page_in_region(region: RegionView, size: int, at: int)
    requires
        size > 0,
        pages_within(region.dirty, size, region.memory.len() as int),
        in_dirty_page(region, size, at),
    ensures
        region.offset <= at < region.offset + region.memory.len(),
{
    let rel = at - region.offset;
    let p = rel / size;
    vstd::arithmetic::div_mod::lemma_div_pos_is_pos(rel, size);
    lemma_page_of(rel, size, p, 1);
}

/// What an incremental pass leaves in the baseline. Over regions that do not
/// overlap, the baseline keeps its length, holds the current content of guest
/// memory in every page that was marked dirty, and is unchanged everywhere else.
pub proof fn lemma_pass_updates_dirty_pages_only(s: SyncView, regions: Seq<RegionView>, size: int)
    requires
        usable_page_size(size),
        s.baseline.len() <= usize::MAX,
        regions_fit(regions, s.baseline.len() as int),
        regions_aligned(regions, size),
        regions_within(regions, size),
        regions_disjoint(regions),
    ensures
        sync_regions(s, regions, size).initialized == s.initialized,
        sync_regions(s, regions, size).baseline.len() == s.baseline.len(),
        forall|i: int, at: int|
            0 <= i < regions.len() && #[trigger] in_dirty_page(regions[i], size, at)
                ==> sync_regions(s, regions, size).baseline[at] == regions[i].memory[at
                - regions[i].offset],
        forall|at: int|
            0 <= at < s.baseline.len() && !in_some_dirty_page(regions, size, at) ==> sync_regions(
                s,
                regions,
                size,
            ).baseline[at] == s.baseline[at],
    decreases regions.len(),
{
    if regions.len() > 0 {
        let n = regions.len() - 1;
        let rest = regions.drop_last();
        let last = regions.last();
        assert(regions[n] == last);
        assert forall|i: int| 0 <= i < rest.len() implies rest[i] == regions[i] by {}
        assert(regions_disjoint(rest)) by {
            assert forall|i: int, j: int| 0 <= i < j < rest.len() implies (#[trigger] rest[i]).offset
                + rest[i].memory.len() <= (#[trigger] rest[j]).offset || rest[j].offset
                + rest[j].memory.len() <= rest[i].offset by {
                assert(rest[i] == regions[i] && rest[j] == regions[j]);
            }
        }
        lemma_pass_updates_dirty_pages_only(s, rest, size);
        let mid = sync_regions(s, rest, size);
        let after = sync_regions(s, regions, size);
        let runs = dirty_runs(last.dirty);
        assert(after == sync_region(mid, last, size));
        assert(runs.take(runs.len() as int) =~= runs);
        lemma_apply_runs(mid, last, size, runs.len() as int);
        assert forall|i: int, at: int|
            0 <= i < regions.len() && #[trigger] in_dirty_page(regions[i], size, at) implies after.baseline[at]
            == regions[i].memory[at - regions[i].offset] by {
            lemma_dirty_page_in_region(regions[i], size, at);
            lemma_runs_are_dirty_pages(last, size, at);
            if i < n {
                assert(rest[i] == regions[i]);
                if in_dirty_page(last, size, at) {
                    lemma_dirty_page_in_region(last, size, at);
                    assert(regions[i].offset + regions[i].memory.len() <= regions[n].offset
                        || regions[n].offset + regions[n].memory.len() <= regions[i].offset);
                }
                assert(in_dirty_page(rest[i], size, at));
                assert(mid.baseline[at] == rest[i].memory[at - rest[i].offset]);
            }
        }
        assert forall|at: int|
            0 <= at < s.baseline.len() && !in_some_dirty_page(regions, size, at) implies after.baseline[at]
            == s.baseline[at] by {
            lemma_runs_are_dirty_pages(last, size, at);
            assert(!in_dirty_page(regions[n], size, at));
            assert(!in_some_dirty_page(rest, size, at)) by {
                if in_some_dirty_page(rest, size, at) {
                    let i = choose|i: int|
                        0 <= i < rest.len() && in_dirty_page(#[trigger] rest[i], size, at);
                    assert(rest[i] == regions[i]);
                    assert(in_dirty_page(regions[i], size, at));
                }
            }
        }
    }
}

/// The descriptors and diff words that an incremental pass adds. The descriptors
/// recorded before stay in place; every added one starts on a page boundary and
/// spans a positive whole number of pages; and the diff words grow by one word for
/// every eight bytes that the added descriptors span.
pub proof fn lemma_pass_adds_aligned_descriptors(s: SyncView, regions: Seq<RegionView>, size: int)
    requires
        usable_page_size(size),
        s.baseline.len() <= usize::MAX,
        regions_fit(regions, s.baseline.len() as int),
        regions_aligned(regions, size),
        regions_within(regions, size),
    ensures
        sync_regions(s, regions, size).baseline.len() == s.baseline.len(),
        sync_regions(s, regions, size).descriptors.len() >= s.descriptors.len(),
        forall|k: int|
            0 <= k < s.descriptors.len() ==> #[trigger] sync_regions(
                s,
                regions,
                size,
            ).descriptors[k] == s.descriptors[k],
        forall|k: int|
            s.descriptors.len() <= k < sync_regions(s, regions, size).descriptors.len() ==> {
                let d = #[trigger] sync_regions(s, regions, size).descriptors[k];
                d.offset as int % size == 0 && d.len as int % size == 0 && d.len > 0
            },
        8 * sync_regions(s, regions, size).diff_words.len() - total_len(
            sync_regions(s, regions, size).descriptors,
        ) == 8 * s.diff_words.len() - total_len(s.descriptors),
    decreases regions.len(),
{
    if regions.len() > 0 {
        let n = regions.len() - 1;
        let rest = regions.drop_last();
        let last = regions.last();
        assert(regions[n] == last);
        assert forall|i: int| 0 <= i < rest.len() implies rest[i] == regions[i] by {}
        lemma_pass_adds_aligned_descriptors(s, rest, size);
        let mid = sync_regions(s, rest, size);
        let after = sync_regions(s, regions, size);
        let runs = dirty_runs(last.dirty);
        assert(after == sync_region(mid, last, size));
        assert(runs.take(runs.len() as int) =~= runs);
        lemma_apply_runs(mid, last, size, runs.len() as int);
        lemma_runs_shape(last.dirty);
        assert forall|k: int| s.descriptors.len() <= k < after.descriptors.len() implies {
            let d = #[trigger] after.descriptors[k];
            d.offset as int % size == 0 && d.len as int % size == 0 && d.len > 0
        } by {
            if k < mid.descriptors.len() {
                assert(after.descriptors[k] == mid.descriptors[k]);
            } else {
                let j = k - mid.descriptors.len();
                let run = runs[j];
                assert(after.descriptors[mid.descriptors.len() + j].offset == last.offset + run.0
                    * size);
                lemma_multiple(run.0, size);
                lemma_multiple(run.1, size);
                lemma_multiple(last.offset / size + run.0, size);
                assert(last.offset == (last.offset / size) * size) by {
                    vstd::arithmetic::div_mod::lemma_fundamental_div_mod(last.offset, size);
                    assert(size * (last.offset / size) == (last.offset / size) * size)
                        by (nonlinear_arith);
                }
                assert((last.offset / size + run.0) * size == (last.offset / size) * size + run.0
                    * size) by (nonlinear_arith);
            }
        }
        assert forall|k: int| 0 <= k < s.descriptors.len() implies #[trigger] after.descriptors[k]
            == s.descriptors[k] by {
            assert(after.descriptors[k] == mid.descriptors[k]);
        }
    }
}

/// Page alignment: whatever a pass is given, the descriptors recorded before it
/// stay in place, and every descriptor that it adds starts on a page boundary and
/// spans a positive whole number of pages.
pub proof fn lemma_emitted_descriptors_are_page_aligned(
    before: SyncView,
    regions: Seq<RegionView>,
    size: int,
    after: SyncView,
    r: Result<Option<u64>, SyncError>,
)
    requires
        before.baseline.len() <= usize::MAX,
        pass_result(before, regions, size, after, r),
    ensures
        after.descriptors.len() >= before.descriptors.len(),
        forall|k: int|
            0 <= k < before.descriptors.len() ==> #[trigger] after.descriptors[k]
                == before.descriptors[k],
        forall|k: int|
            before.descriptors.len() <= k < after.descriptors.len() ==> {
                let d = #[trigger] after.descriptors[k];
                size > 0 && d.offset as int % size == 0 && d.len as int % size == 0 && d.len > 0
            },
{
    if r is Ok && before.initialized {
        lemma_pass_adds_aligned_descriptors(before, regions, size);
    }
}

/// The diff words stay in step with the descriptors: if there is one word for every
/// eight bytes described before a pass, so there is after it.
pub proof fn lemma_pass_keeps_words_and_descriptors_in_step(
    s: SyncView,
    regions: Seq<RegionView>,
    size: int,
)
    requires
        usable_page_size(size),
        s.baseline.len() <= usize::MAX,
        regions_fit(regions, s.baseline.len() as int),
        regions_aligned(regions, size),
        regions_within(regions, size),
        words_match_descriptors(s),
    ensures
        words_match_descriptors(sync_regions(s, regions, size)),
{
    lemma_pass_adds_aligned_descriptors(s, regions, size);
}

} // verus!
