//! Turning a per-page dirty indicator into maximal runs of dirty pages.

use crate::sync_backend::OffsetLength;
use vstd::prelude::*;

verus! {

/// Whether the hypervisor's bitmap, one bit per page and 64 pages per word with the
/// lowest bit first, marks page `p`.
pub open spec fn hypervisor_bit(bitmap: Seq<u64>, p: int) -> bool {
    0 <= p < 64 * bitmap.len() && ((bitmap[p / 64] >> ((p % 64) as u64)) & 1u64) != 0u64
}

/// Whether the software write log marks page `p`; pages past its end are clean.
pub open spec fn software_bit(log: Seq<bool>, p: int) -> bool {
    0 <= p < log.len() && log[p]
}

/// The combined dirty indicator of a region: one entry per page that the
/// hypervisor's bitmap has a bit for, true where either source marks the page.
pub open spec fn dirty_pages(bitmap: Seq<u64>, log: Seq<bool>) -> Seq<bool> {
    Seq::new((64 * bitmap.len()) as nat, |p: int| hypervisor_bit(bitmap, p) || software_bit(log, p))
}

/// The maximal runs of dirty pages, in address order, each as the index of its
/// first page and its number of pages.
pub open spec fn dirty_runs(dirty: Seq<bool>) -> Seq<(int, int)>
    decreases dirty.len(),
{
    if dirty.len() == 0 {
        Seq::empty()
    } else {
        let p = dirty.len() - 1;
        let before = dirty_runs(dirty.drop_last());
        if !dirty[p] {
            before
        } else if p > 0 && dirty[p - 1] {
            before.drop_last().push((before.last().0, before.last().1 + 1))
        } else {
            before.push((p, 1))
        }
    }
}

/// Whether pages `start .. start + count` form a maximal run of dirty pages.
pub open spec fn is_maximal_run(dirty: Seq<bool>, start: int, count: int) -> bool {
    &&& 0 <= start
    &&& 1 <= count
    &&& start + count <= dirty.len()
    &&& forall|p: int| start <= p < start + count ==> dirty[p]
    &&& (start == 0 || !dirty[start - 1])
    &&& (start + count == dirty.len() || !dirty[start + count])
}

/// The runs of a dirty indicator lie inside it, each holds dirty pages only, and a
/// clean page or the indicator's start precedes each. The last one ends at the
/// indicator's end exactly when the last page is dirty.
pub proof fn lemma_runs_shape(dirty: Seq<bool>)
    ensures
        forall|k: int|
            0 <= k < dirty_runs(dirty).len() ==> {
                let r = #[trigger] dirty_runs(dirty)[k];
                &&& 0 <= r.0
                &&& 1 <= r.1
                &&& r.0 + r.1 <= dirty.len()
                &&& (r.0 == 0 || !dirty[r.0 - 1])
                &&& (k + 1 < dirty_runs(dirty).len() ==> r.0 + r.1 < dirty_runs(dirty)[k + 1].0)
                &&& (r.0 + r.1 < dirty.len() ==> !dirty[r.0 + r.1])
                &&& forall|p: int| r.0 <= p < r.0 + r.1 ==> dirty[p]
            },
        dirty.len() > 0 && dirty.last() ==> dirty_runs(dirty).len() > 0 && dirty_runs(
            dirty,
        ).last().0 + dirty_runs(dirty).last().1 == dirty.len(),
        dirty.len() > 0 && !dirty.last() && dirty_runs(dirty).len() > 0 ==> dirty_runs(
            dirty,
        ).last().0 + dirty_runs(dirty).last().1 < dirty.len(),
    decreases dirty.len(),
{
    if dirty.len() > 0 {
        let p = dirty.len() - 1;
        let prev = dirty.drop_last();
        let before = dirty_runs(prev);
        lemma_runs_shape(prev);
        assert(forall|q: int| 0 <= q < p ==> prev[q] == dirty[q]);
        if !dirty[p] {
            assert(dirty_runs(dirty) == before);
        } else if p > 0 && dirty[p - 1] {
            assert(prev.last() == dirty[p - 1]);
            let last = before.last();
            let grown = before.drop_last().push((last.0, last.1 + 1));
            assert(dirty_runs(dirty) == grown);
            assert forall|k: int| 0 <= k < grown.len() implies {
                let r = #[trigger] grown[k];
                &&& 0 <= r.0
                &&& 1 <= r.1
                &&& r.0 + r.1 <= dirty.len()
                &&& (r.0 == 0 || !dirty[r.0 - 1])
                &&& (k + 1 < grown.len() ==> r.0 + r.1 < grown[k + 1].0)
                &&& (r.0 + r.1 < dirty.len() ==> !dirty[r.0 + r.1])
                &&& forall|q: int| r.0 <= q < r.0 + r.1 ==> dirty[q]
            } by {
                if k + 1 < grown.len() {
                    assert(grown[k] == before[k]);
                    assert(before[k + 1].0 == grown[k + 1].0);
                } else {
                    assert(grown[k] == (last.0, last.1 + 1));
                }
            }
        } else {
            let grown = before.push((p, 1));
            assert(dirty_runs(dirty) == grown);
            if p > 0 {
                assert(prev.last() == dirty[p - 1]);
            }
            assert forall|k: int| 0 <= k < grown.len() implies {
                let r = #[trigger] grown[k];
                &&& 0 <= r.0
                &&& 1 <= r.1
                &&& r.0 + r.1 <= dirty.len()
                &&& (r.0 == 0 || !dirty[r.0 - 1])
                &&& (k + 1 < grown.len() ==> r.0 + r.1 < grown[k + 1].0)
                &&& (r.0 + r.1 < dirty.len() ==> !dirty[r.0 + r.1])
                &&& forall|q: int| r.0 <= q < r.0 + r.1 ==> dirty[q]
            } by {
                if k < before.len() {
                    assert(grown[k] == before[k]);
                    if k + 1 < before.len() {
                        assert(grown[k + 1] == before[k + 1]);
                    } else {
                        assert(grown[k + 1] == (p, 1int));
                        assert(k == before.len() - 1);
                        assert(before[k] == before.last());
                    }
                }
            }
        }
    }
}

/// Every run is a maximal run of dirty pages, and a later run starts past the
/// clean page that ends the earlier one.
pub proof fn lemma_runs_are_maximal(dirty: Seq<bool>, k: int)
    requires
        0 <= k < dirty_runs(dirty).len(),
    ensures
        is_maximal_run(dirty, dirty_runs(dirty)[k].0, dirty_runs(dirty)[k].1),
        k + 1 < dirty_runs(dirty).len() ==> dirty_runs(dirty)[k].0 + dirty_runs(dirty)[k].1
            < dirty_runs(dirty)[k + 1].0,
{
    lemma_runs_shape(dirty);
    let r = dirty_runs(dirty)[k];
    assert(r.0 + r.1 <= dirty.len());
}

/// Every dirty page lies in one of the runs.
#[verifier::rlimit(30)]
pub proof fn lemma_runs_cover(dirty: Seq<bool>, p: int)
    requires
        0 <= p < dirty.len(),
        dirty[p],
    ensures
        exists|k: int|
            0 <= k < dirty_runs(dirty).len() && (#[trigger] dirty_runs(dirty)[k]).0 <= p
                < dirty_runs(dirty)[k].0 + dirty_runs(dirty)[k].1,
    decreases dirty.len(),
{
    let last = dirty.len() - 1;
    let prev = dirty.drop_last();
    let before = dirty_runs(prev);
    let runs = dirty_runs(dirty);
    lemma_runs_shape(prev);
    lemma_runs_shape(dirty);
    if p == last {
        let k = runs.len() - 1;
        assert(runs[k] == runs.last());
        assert(runs[k].0 <= p < runs[k].0 + runs[k].1);
    } else {
        assert(prev[p] == dirty[p]);
        lemma_runs_cover(prev, p);
        let k = choose|k: int|
            0 <= k < before.len() && (#[trigger] before[k]).0 <= p < before[k].0 + before[k].1;
        if !dirty[last] {
            assert(runs[k] == before[k]);
        } else if last > 0 && dirty[last - 1] {
            if k + 1 < before.len() {
                assert(runs[k] == before[k]);
            } else {
                assert(runs[k] == (before.last().0, before.last().1 + 1));
            }
            assert(runs[k].0 <= p < runs[k].0 + runs[k].1);
        } else {
            assert(runs[k] == before[k]);
        }
    }
}

/// An indicator without a dirty page has no runs.
pub proof fn lemma_clean_has_no_runs(dirty: Seq<bool>)
    requires
        forall|p: int| 0 <= p < dirty.len() ==> !dirty[p],
    ensures
        dirty_runs(dirty).len() == 0,
    decreases dirty.len(),
{
    if dirty.len() > 0 {
        let prev = dirty.drop_last();
        assert(forall|p: int| 0 <= p < prev.len() ==> prev[p] == dirty[p]);
        lemma_clean_has_no_runs(prev);
    }
}

/// Whether `batches` are the byte ranges of `runs` for pages of `page_size` bytes:
/// one descriptor per run, in the same order.
pub open spec fn describes(batches: Seq<OffsetLength>, runs: Seq<(int, int)>, page_size: int) -> bool {
    &&& batches.len() == runs.len()
    &&& forall|k: int|
        0 <= k < runs.len() ==> (#[trigger] batches[k]).offset == runs[k].0 * page_size
            && batches[k].len == runs[k].1 * page_size
}

/// Page alignment: every batch starts on a page boundary and spans a positive whole
/// number of pages.
pub proof fn lemma_batches_page_aligned(batches: Seq<OffsetLength>, dirty: Seq<bool>, page_size: int)
    requires
        page_size > 0,
        describes(batches, dirty_runs(dirty), page_size),
    ensures
        forall|k: int|
            0 <= k < batches.len() ==> (#[trigger] batches[k]).offset as int % page_size == 0
                && batches[k].len as int % page_size == 0 && batches[k].len > 0,
{
    lemma_runs_shape(dirty);
    assert forall|k: int| 0 <= k < batches.len() implies (#[trigger] batches[k]).offset as int
        % page_size == 0 && batches[k].len as int % page_size == 0 && batches[k].len > 0 by {
        let run = dirty_runs(dirty)[k];
        lemma_multiple(run.0, page_size);
        lemma_multiple(run.1, page_size);
    }
}

/// A multiple of a positive number leaves no remainder, and is positive with its factor.
pub proof fn lemma_multiple(n: int, size: int)
    requires
        size > 0,
    ensures
        (n * size) % size == 0,
        n > 0 ==> n * size >= size,
        n >= 0 ==> n * size >= 0,
{
    vstd::arithmetic::div_mod::lemma_mod_multiples_basic(n, size);
    assert(n > 0 ==> n * size >= size) by (nonlinear_arith)
        requires
            size > 0,
    ;
    assert(n >= 0 ==> n * size >= 0) by (nonlinear_arith)
        requires
            size > 0,
    ;
}

/// Whether every dirty page ends at or before byte `limit`.
pub open spec fn pages_within(dirty: Seq<bool>, page_size: int, limit: int) -> bool {
    forall|p: int| 0 <= p < dirty.len() && #[trigger] dirty[p] ==> (p + 1) * page_size <= limit
}

/// A number of pages past a limit is, in bytes, past the limit as well.
proof fn lemma_beyond(a: int, page_size: int, limit: int)
    requires
        a > limit,
        page_size >= 1,
        limit >= 0,
    ensures
        a * page_size > limit,
{
    assert(a * page_size >= a) by (nonlinear_arith)
        requires
            a > 0,
            page_size >= 1,
    ;
}

/// The index of bit `j` of word `i` of a bitmap, if it fits the machine word.
fn page_index(i: usize, j: usize) -> (r: Option<usize>)
    requires
        j < 64,
    ensures
        r matches Some(p) ==> p == 64 * i + j,
        r is None ==> 64 * i + j > usize::MAX,
{
    match i.checked_mul(64) {
        Some(base) => base.checked_add(j),
        None => None,
    }
}

/// The end, in bytes, of page `p`, if it is at most `limit`.
fn page_end(p: usize, page_size: usize, limit: usize) -> (r: Option<usize>)
    requires
        page_size > 0,
    ensures
        r matches Some(end) ==> end == (p + 1) * page_size && end <= limit,
        r is None ==> (p + 1) * page_size > limit,
{
    match p.checked_add(1) {
        Some(next) => match next.checked_mul(page_size) {
            Some(end) => if end <= limit {
                Some(end)
            } else {
                None
            },
            None => None,
        },
        None => {
            proof {
                lemma_beyond(p + 1, page_size as int, limit as int);
            }
            None
        },
    }
}

/// Whether either source marks bit `j` of word `i`, whose value is `word`.
fn page_is_dirty(word: u64, log: &[bool], i: usize, j: usize) -> (r: bool)
    requires
        j < 64,
    ensures
        r == (((word >> (j as u64)) & 1u64) != 0u64 || software_bit(log@, 64 * i + j)),
{
    if ((word >> (j as u64)) & 1u64) != 0u64 {
        true
    } else {
        let count: usize = log.len();
        assert(count == log@.len());
        match page_index(i, j) {
            Some(p) => p < count && log[p],
            None => false,
        }
    }
}

/// Scans the dirty indicator of one region and returns its batches: one descriptor
/// for each maximal run of dirty pages, in address order, with offset and length in
/// bytes. A batch still open at the end of the indicator is closed there.
///
/// `bitmap` is the hypervisor's bitmap and `log` the software write log, one entry
/// per page. If a dirty page ends past byte `limit`, the result is `None`.
pub fn scan_region(bitmap: &[u64], log: &[bool], page_size: usize, limit: usize) -> (r: Option<
    Vec<OffsetLength>,
>)
    requires
        page_size > 0,
    ensures
        r is Some <==> pages_within(dirty_pages(bitmap@, log@), page_size as int, limit as int),
        r matches Some(v) ==> describes(
            v@,
            dirty_runs(dirty_pages(bitmap@, log@)),
            page_size as int,
        ),
{
    let ghost dirty = dirty_pages(bitmap@, log@);
    let ghost size = page_size as int;
    let mut out: Vec<OffsetLength> = Vec::new();
    let mut dirty_batch_start: usize = 0;
    let mut write_size: usize = 0;
    let mut i: usize = 0;
    proof {
        assert(dirty.take(0) =~= Seq::<bool>::empty());
    }
    while i < bitmap.len()
        invariant
            page_size > 0,
            size == page_size,
            dirty == dirty_pages(bitmap@, log@),
            i <= bitmap.len(),
            scanned(dirty, 64 * i, size, limit as int, out@, dirty_batch_start, write_size),
        decreases bitmap.len() - i,
    {
        let word: u64 = bitmap[i];
        let mut j: usize = 0;
        while j < 64
            invariant
                page_size > 0,
                size == page_size,
                dirty == dirty_pages(bitmap@, log@),
                i < bitmap.len(),
                word == bitmap@[i as int],
                j <= 64,
                scanned(dirty, 64 * i + j, size, limit as int, out@, dirty_batch_start, write_size),
            decreases 64 - j,
        {
            let ghost p = 64 * i + j;
            proof {
                assert(p / 64 == i as int && p % 64 == j as int);
                assert(dirty[p] == (hypervisor_bit(bitmap@, p) || software_bit(log@, p)));
            }
            if page_is_dirty(word, log, i, j) {
                let end: Option<usize> = match page_index(i, j) {
                    Some(page) => page_end(page, page_size, limit),
                    None => {
                        proof {
                            lemma_beyond(p + 1, size, limit as int);
                        }
                        None
                    },
                };
                match end {
                    Some(end) => {
                        proof {
                            lemma_scan_dirty(
                                dirty,
                                p,
                                size,
                                limit as int,
                                out@,
                                dirty_batch_start,
                                write_size,
                            );
                        }
                        if write_size == 0 {
                            dirty_batch_start = end - page_size;
                        }
                        write_size = write_size + page_size;
                    },
                    None => {
                        assert(!pages_within(dirty, size, limit as int));
                        return None;
                    },
                }
            } else {
                proof {
                    lemma_scan_clean(
                        dirty,
                        p,
                        size,
                        limit as int,
                        out@,
                        dirty_batch_start,
                        write_size,
                    );
                }
                if write_size > 0 {
                    out.push(OffsetLength { offset: dirty_batch_start, len: write_size });
                    write_size = 0;
                }
            }
            j = j + 1;
        }
        i = i + 1;
    }
    proof {
        lemma_scan_end(dirty, size, limit as int, out@, dirty_batch_start, write_size);
    }
    if write_size > 0 {
        out.push(OffsetLength { offset: dirty_batch_start, len: write_size });
    }
    Some(out)
}

/// What a scan has established after the first `p` pages: every dirty page seen lies
/// within the limit, the closed batches describe the runs that have ended, and the
/// open batch, if any, is the run that reaches page `p`.
spec fn scanned(
    dirty: Seq<bool>,
    p: int,
    size: int,
    limit: int,
    closed: Seq<OffsetLength>,
    start: usize,
    open: usize,
) -> bool {
    let seen = dirty.take(p);
    let runs = dirty_runs(seen);
    &&& 0 <= p <= dirty.len()
    &&& pages_within(seen, size, limit)
    &&& if open == 0 {
        &&& describes(closed, runs, size)
        &&& (p > 0 ==> !dirty[p - 1])
    } else {
        &&& p > 0
        &&& dirty[p - 1]
        &&& runs.len() > 0
        &&& describes(closed, runs.drop_last(), size)
        &&& start == runs.last().0 * size
        &&& open == runs.last().1 * size
        &&& start + open == p * size
        &&& p * size <= limit
    }
}

/// A dirty page within the limit opens a batch at its start or extends the open one.
proof fn lemma_scan_dirty(
    dirty: Seq<bool>,
    p: int,
    size: int,
    limit: int,
    closed: Seq<OffsetLength>,
    start: usize,
    open: usize,
)
    requires
        scanned(dirty, p, size, limit, closed, start, open),
        p < dirty.len(),
        dirty[p],
        size > 0,
        (p + 1) * size <= limit,
        limit <= usize::MAX,
    ensures
        (p + 1) * size == p * size + size,
        open + size <= usize::MAX,
        scanned(
            dirty,
            p + 1,
            size,
            limit,
            closed,
            if open == 0 {
                (p * size) as usize
            } else {
                start
            },
            (open + size) as usize,
        ),
{
    let seen = dirty.take(p);
    let next = dirty.take(p + 1);
    assert(next.drop_last() =~= seen);
    assert(next[p] == dirty[p]);
    assert((p + 1) * size == p * size + size) by (nonlinear_arith);
    assert(1 * size == size) by (nonlinear_arith);
    assert(0 <= p * size) by (nonlinear_arith)
        requires
            p >= 0,
            size > 0,
    ;
    assert(pages_within(next, size, limit)) by {
        assert forall|q: int| 0 <= q < next.len() && #[trigger] next[q] implies (q + 1) * size
            <= limit by {
            if q < p {
                assert(seen[q] == next[q]);
            }
        }
    }
    let runs = dirty_runs(next);
    if open == 0 {
        assert(runs == dirty_runs(seen).push((p, 1int)));
        assert(runs.drop_last() =~= dirty_runs(seen));
        assert(runs.last() == (p, 1int));
    } else {
        assert(next[p - 1] == dirty[p - 1]);
        let last = dirty_runs(seen).last();
        assert(runs == dirty_runs(seen).drop_last().push((last.0, last.1 + 1)));
        assert(runs.drop_last() =~= dirty_runs(seen).drop_last());
        assert(runs.last() == (last.0, last.1 + 1));
        assert((last.1 + 1) * size == last.1 * size + size) by (nonlinear_arith);
    }
}

/// A clean page closes the open batch, if there is one.
proof fn lemma_scan_clean(
    dirty: Seq<bool>,
    p: int,
    size: int,
    limit: int,
    closed: Seq<OffsetLength>,
    start: usize,
    open: usize,
)
    requires
        scanned(dirty, p, size, limit, closed, start, open),
        p < dirty.len(),
        !dirty[p],
    ensures
        scanned(
            dirty,
            p + 1,
            size,
            limit,
            if open == 0 {
                closed
            } else {
                closed.push(OffsetLength { offset: start, len: open })
            },
            start,
            0,
        ),
{
    let seen = dirty.take(p);
    let next = dirty.take(p + 1);
    assert(next.drop_last() =~= seen);
    assert(next[p] == dirty[p]);
    assert(dirty_runs(next) == dirty_runs(seen));
    assert(pages_within(next, size, limit)) by {
        assert forall|q: int| 0 <= q < next.len() && #[trigger] next[q] implies (q + 1) * size
            <= limit by {
            if q < p {
                assert(seen[q] == next[q]);
            }
        }
    }
    if open != 0 {
        lemma_close_open_batch(dirty_runs(seen), size, closed, start, open);
    }
}

/// At the end of the indicator the batch that is still open is the last run.
proof fn lemma_scan_end(
    dirty: Seq<bool>,
    size: int,
    limit: int,
    closed: Seq<OffsetLength>,
    start: usize,
    open: usize,
)
    requires
        scanned(dirty, dirty.len() as int, size, limit, closed, start, open),
    ensures
        pages_within(dirty, size, limit),
        describes(
            if open == 0 {
                closed
            } else {
                closed.push(OffsetLength { offset: start, len: open })
            },
            dirty_runs(dirty),
            size,
        ),
{
    assert(dirty.take(dirty.len() as int) =~= dirty);
    if open != 0 {
        lemma_close_open_batch(dirty_runs(dirty), size, closed, start, open);
    }
}

/// Closing the open batch describes the runs: where the closed batches describe
/// all runs but the last and the open batch is the last run, the closed batches with
/// the open one added describe all runs.
proof fn lemma_close_open_batch(
    runs: Seq<(int, int)>,
    size: int,
    closed: Seq<OffsetLength>,
    start: usize,
    open: usize,
)
    requires
        runs.len() > 0,
        describes(closed, runs.drop_last(), size),
        start == runs.last().0 * size,
        open == runs.last().1 * size,
    ensures
        describes(closed.push(OffsetLength { offset: start, len: open }), runs, size),
{
    let grown = closed.push(OffsetLength { offset: start, len: open });
    assert forall|k: int| 0 <= k < runs.len() implies (#[trigger] grown[k]).offset == runs[k].0
        * size && grown[k].len == runs[k].1 * size by {
        if k < closed.len() {
            assert(grown[k] == closed[k]);
            assert(runs.drop_last()[k] == runs[k]);
        } else {
            assert(runs[k] == runs.last());
        }
    }
}

/// The number of pages of `page_size` bytes that a region of `length` bytes holds,
/// a last partial page counted.
pub open spec fn pages_of(length: int, page_size: int) -> int {
    if length % page_size == 0 {
        length / page_size
    } else {
        length / page_size + 1
    }
}

/// Counts the pages of `page_size` bytes that a region of `length` bytes holds, a
/// last partial page counted.
pub fn page_count(length: usize, page_size: usize) -> (pages: usize)
    requires
        page_size > 0,
    ensures
        pages == pages_of(length as int, page_size as int),
{
    proof {
        lemma_pages_of(length as int, page_size as int);
    }
    if length % page_size == 0 {
        length / page_size
    } else {
        length / page_size + 1
    }
}

/// A region has at most as many pages as bytes.
pub proof fn lemma_pages_of(length: int, page_size: int)
    requires
        0 <= length,
        page_size > 0,
    ensures
        0 <= pages_of(length, page_size) <= length,
        length % page_size != 0 ==> length / page_size < length,
{
    let q = length / page_size;
    let r = length % page_size;
    vstd::arithmetic::div_mod::lemma_fundamental_div_mod(length, page_size);
    vstd::arithmetic::div_mod::lemma_mod_bound(length, page_size);
    vstd::arithmetic::div_mod::lemma_div_pos_is_pos(length, page_size);
    assert(q <= page_size * q) by (nonlinear_arith)
        requires
            q >= 0,
            page_size >= 1,
    ;
    if r != 0 {
        assert(2 * q <= page_size * q) by (nonlinear_arith)
            requires
                q >= 0,
                page_size >= 2,
        ;
    }
}

/// Every page of a region starts inside the region.
pub proof fn lemma_page_starts_inside(page: int, length: int, page_size: int)
    requires
        0 <= length,
        page_size > 0,
        0 <= page < pages_of(length, page_size),
    ensures
        0 <= page * page_size < length,
{
    let q = length / page_size;
    vstd::arithmetic::div_mod::lemma_fundamental_div_mod(length, page_size);
    vstd::arithmetic::div_mod::lemma_mod_bound(length, page_size);
    assert(0 <= page * page_size) by (nonlinear_arith)
        requires
            page >= 0,
            page_size > 0,
    ;
    if length % page_size == 0 {
        assert(page * page_size + page_size <= page_size * q) by (nonlinear_arith)
            requires
                page + 1 <= q,
                page_size > 0,
        ;
    } else {
        assert(page * page_size <= page_size * q) by (nonlinear_arith)
            requires
                page <= q,
                page_size > 0,
        ;
    }
}

/// A region has at most `bits` pages exactly when its bytes fit `bits` pages.
pub proof fn lemma_pages_fit(length: int, page_size: int, bits: int)
    requires
        0 <= length,
        page_size > 0,
        0 <= bits,
    ensures
        pages_of(length, page_size) <= bits <==> length <= bits * page_size,
{
    let q = length / page_size;
    vstd::arithmetic::div_mod::lemma_fundamental_div_mod(length, page_size);
    vstd::arithmetic::div_mod::lemma_mod_bound(length, page_size);
    assert(q <= bits ==> page_size * q <= bits * page_size) by (nonlinear_arith)
        requires
            page_size > 0,
    ;
    assert(q + 1 <= bits ==> page_size * q + page_size <= bits * page_size) by (nonlinear_arith)
        requires
            page_size > 0,
    ;
    assert(bits <= q - 1 ==> bits * page_size + page_size <= page_size * q) by (nonlinear_arith)
        requires
            page_size > 0,
    ;
    assert(bits <= q ==> bits * page_size <= page_size * q) by (nonlinear_arith)
        requires
            page_size > 0,
    ;
}

/// Tests whether a bitmap of `words` words has a bit for every page, whole or
/// partial, of a region of `length` bytes.
pub fn bitmap_covers(words: usize, length: usize, page_size: usize) -> (ok: bool)
    requires
        page_size > 0,
    ensures
        ok == (length <= 64 * words * page_size),
{
    let pages: usize = page_count(length, page_size);
    proof {
        lemma_pages_fit(length as int, page_size as int, 64 * words);
        lemma_pages_of(length as int, page_size as int);
    }
    match words.checked_mul(64) {
        Some(bits) => pages <= bits,
        None => true,
    }
}

/// The dirty indicator of slot `i`: what the hypervisor's bitmap of the slot and the
/// write log of its region mark.
pub open spec fn slot_dirty(bitmaps: Seq<Vec<u64>>, logs: Seq<Vec<bool>>, i: int) -> Seq<bool> {
    dirty_pages(bitmaps[i]@, logs[i]@)
}

/// Whether every dirty page of every slot lies inside the slot's region, whose size
/// is given.
pub open spec fn slots_within(
    sizes: Seq<u64>,
    bitmaps: Seq<Vec<u64>>,
    logs: Seq<Vec<bool>>,
    page_size: int,
) -> bool {
    forall|i: int|
        0 <= i < sizes.len() ==> pages_within(
            #[trigger] slot_dirty(bitmaps, logs, i),
            page_size,
            sizes[i] as int,
        )
}

/// Scans the dirty indicators of all slots, in order, and returns the batches of
/// each, or `None` if a dirty page of some slot lies outside the slot's region.
pub fn scan_slots(
    sizes: &Vec<u64>,
    bitmaps: &[Vec<u64>],
    logs: &Vec<Vec<bool>>,
    page_size: usize,
) -> (r: Option<Vec<Vec<OffsetLength>>>)
    requires
        page_size > 0,
        sizes@.len() <= bitmaps@.len(),
        sizes@.len() == logs@.len(),
        forall|i: int| 0 <= i < sizes@.len() ==> #[trigger] sizes@[i] <= usize::MAX,
    ensures
        r is Some <==> slots_within(sizes@, bitmaps@, logs@, page_size as int),
        r matches Some(all) ==> all@.len() == sizes@.len() && forall|i: int|
            0 <= i < sizes@.len() ==> describes(
                (#[trigger] all@[i])@,
                dirty_runs(slot_dirty(bitmaps@, logs@, i)),
                page_size as int,
            ),
{
    let count: usize = sizes.len();
    let mut all: Vec<Vec<OffsetLength>> = Vec::new();
    let mut k: usize = 0;
    while k < count
        invariant
            page_size > 0,
            count == sizes@.len(),
            count <= bitmaps@.len(),
            count == logs@.len(),
            k <= count,
            forall|i: int| 0 <= i < sizes@.len() ==> #[trigger] sizes@[i] <= usize::MAX,
            all@.len() == k,
            forall|i: int|
                0 <= i < k ==> pages_within(
                    #[trigger] slot_dirty(bitmaps@, logs@, i),
                    page_size as int,
                    sizes@[i] as int,
                ),
            forall|i: int|
                0 <= i < k ==> describes(
                    (#[trigger] all@[i])@,
                    dirty_runs(slot_dirty(bitmaps@, logs@, i)),
                    page_size as int,
                ),
        decreases count - k,
    {
        assert(sizes@[k as int] <= usize::MAX);
        match scan_region(
            bitmaps[k].as_slice(),
            logs[k].as_slice(),
            page_size,
            sizes[k] as usize,
        ) {
            Some(batches) => {
                let ghost earlier = all@;
                all.push(batches);
                proof {
                    assert forall|i: int| 0 <= i < k + 1 implies describes(
                        (#[trigger] all@[i])@,
                        dirty_runs(slot_dirty(bitmaps@, logs@, i)),
                        page_size as int,
                    ) by {
                        if i < k {
                            assert(all@[i] == earlier[i]);
                        }
                    }
                }
            },
            None => {
                assert(!pages_within(
                    slot_dirty(bitmaps@, logs@, k as int),
                    page_size as int,
                    sizes@[k as int] as int,
                ));
                return None;
            },
        }
        k = k + 1;
    }
    Some(all)
}

} // verus!
