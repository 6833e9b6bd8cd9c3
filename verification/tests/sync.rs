use memsync::sync::{
    bitmaps_cover, capture_baseline, diff_batch, diff_plans, fits_baseline, plan_region,
    starts_on_pages, store, synchronize, GuestRegion, RegionPlan, RegionProcessor, SyncError,
};
use memsync::sync_backend::{worker_step, OffsetLength, SyncState, WorkerEvent, WorkerState};
use memsync::words::{append_xor, append_xor_of_bytes, do_xor, push_xor, word_at_index};

const P: usize = 4096;

fn word(bytes: &[u8]) -> u64 {
    let mut w = [0u8; 8];
    w.copy_from_slice(bytes);
    u64::from_ne_bytes(w)
}

fn pattern(len: usize, seed: u8) -> Vec<u8> {
    (0..len).map(|i| (i as u8).wrapping_mul(31).wrapping_add(seed)).collect()
}

fn region<'a>(
    offset: usize,
    memory: &'a [u8],
    dirty_bitmap: &'a [u64],
    dirty_log: &'a [bool],
) -> GuestRegion<'a> {
    GuestRegion { offset, memory, dirty_bitmap, dirty_log }
}

#[test]
fn reads_words_in_native_order() {
    let bytes = [1u8, 2, 3, 4, 5, 6, 7, 8, 9, 10, 11, 12, 13, 14, 15, 16];
    assert_eq!(word_at_index(&bytes, 0), u64::from_ne_bytes([1, 2, 3, 4, 5, 6, 7, 8]));
    assert_eq!(word_at_index(&bytes, 1), u64::from_ne_bytes([9, 10, 11, 12, 13, 14, 15, 16]));
    assert_ne!(word_at_index(&bytes, 0), word_at_index(&bytes, 1));
}

#[test]
fn reads_words_from_unaligned_slices() {
    let bytes = pattern(64, 3);
    for shift in 0..8usize {
        let slice = &bytes[shift..shift + 16];
        assert_eq!(word_at_index(slice, 1), word(&bytes[shift + 8..shift + 16]));
    }
}

#[test]
fn push_xor_appends_the_difference() {
    let mut log = vec![9u64];
    push_xor(&mut log, 0xFF00, 0x0FF0);
    push_xor(&mut log, 5, 5);
    assert_eq!(log, vec![9u64, 0xF0F0, 0]);
}

#[test]
fn append_xor_goes_word_by_word() {
    let mut log = vec![1u64];
    append_xor(&mut log, &[0xF0, 0x0F, 7], &[0xFF, 0x0F, 0]);
    assert_eq!(log, vec![1u64, 0x0F, 0, 7]);
    append_xor(&mut log, &[], &[]);
    assert_eq!(log.len(), 4);
}

#[test]
fn xor_of_bytes_does_not_depend_on_alignment() {
    let new = pattern(80, 17);
    let prior = pattern(80, 200);
    let mut expected: Vec<u64> = Vec::new();
    for i in 0..8 {
        expected.push(word(&new[8 * i..8 * i + 8]) ^ word(&prior[8 * i..8 * i + 8]));
    }
    for shift_new in 0..8usize {
        for shift_prior in 0..8usize {
            let shifted_new: Vec<u8> = [vec![0u8; shift_new], new.clone()].concat();
            let shifted_prior: Vec<u8> = [vec![0u8; shift_prior], prior.clone()].concat();
            let mut log: Vec<u64> = Vec::new();
            append_xor_of_bytes(
                &mut log,
                &shifted_new[shift_new..shift_new + 64],
                &shifted_prior[shift_prior..shift_prior + 64],
            );
            assert_eq!(log, expected);
        }
    }
}

#[test]
fn xor_of_bytes_differs_from_the_bytes_themselves() {
    let new = [0x11u8, 0x22, 0x33, 0x44, 0x55, 0x66, 0x77, 0x88];
    let prior = [0u8; 8];
    let mut log: Vec<u64> = Vec::new();
    append_xor_of_bytes(&mut log, &new, &prior);
    assert_eq!(log, vec![u64::from_ne_bytes(new)]);
    assert_ne!(log[0], 0);
    assert_ne!(log[0], 0x11);
}

#[test]
fn do_xor_reads_the_baseline_from_the_base() {
    let q = pattern(48, 9);
    let p = [0u64, u64::MAX, 0x0123_4567_89AB_CDEF];
    let r = do_xor(&p, 16, &q);
    assert_eq!(
        r,
        vec![word(&q[16..24]), !word(&q[24..32]), 0x0123_4567_89AB_CDEF ^ word(&q[32..40])]
    );
    // the base is rounded down to a word
    assert_eq!(do_xor(&p[..1], 23, &q), vec![word(&q[16..24])]);
    assert!(do_xor(&[], 48, &q).is_empty());
}

#[test]
fn store_replaces_a_range() {
    let mut base = vec![0u8; 8];
    store(&mut base, 2, &[7, 8, 9]);
    assert_eq!(base, vec![0, 0, 7, 8, 9, 0, 0, 0]);
    store(&mut base, 8, &[]);
    assert_eq!(base, vec![0, 0, 7, 8, 9, 0, 0, 0]);
}

#[test]
fn xor_round_trip() {
    let a = pattern(64, 1);
    let b = pattern(64, 200);
    let mut sink = RegionProcessor::new(a.clone(), Vec::new());
    let n = sink.write(&b);
    assert_eq!(n, 64);
    let (baseline, words) = sink.into_parts();
    assert_eq!(baseline, b);
    assert_eq!(words.len(), 8);
    for i in 0..8 {
        assert_eq!(words[i], word(&a[8 * i..8 * i + 8]) ^ word(&b[8 * i..8 * i + 8]));
    }
}

#[test]
fn write_lands_at_the_offset() {
    let a = pattern(64, 1);
    let b = pattern(16, 77);
    let mut sink = RegionProcessor::new(a.clone(), vec![42u64]);
    assert_eq!(sink.offset, 0);
    sink.offset = 24;
    assert_eq!(sink.write(&b), 16);
    assert_eq!(sink.offset, 24);
    let (baseline, words) = sink.into_parts();
    assert_eq!(&baseline[..24], &a[..24]);
    assert_eq!(&baseline[24..40], &b[..]);
    assert_eq!(&baseline[40..], &a[40..]);
    assert_eq!(
        words,
        vec![42u64, word(&a[24..32]) ^ word(&b[..8]), word(&a[32..40]) ^ word(&b[8..])]
    );
}

#[test]
fn write_rounds_the_offset_down_to_a_word() {
    let a = pattern(32, 5);
    let b = pattern(8, 9);
    let mut sink = RegionProcessor::new(a.clone(), Vec::new());
    sink.offset = 13;
    sink.write(&b);
    let (baseline, words) = sink.into_parts();
    assert_eq!(&baseline[8..16], &b[..]);
    assert_eq!(&baseline[..8], &a[..8]);
    assert_eq!(&baseline[16..], &a[16..]);
    assert_eq!(words, vec![word(&a[8..16]) ^ word(&b)]);
}

#[test]
fn write_of_unchanged_bytes_logs_zero_words() {
    let a = pattern(32, 5);
    let mut sink = RegionProcessor::new(a.clone(), Vec::new());
    sink.write(&a);
    let (baseline, words) = sink.into_parts();
    assert_eq!(baseline, a);
    assert_eq!(words, vec![0u64; 4]);
}

#[test]
fn write_of_nothing_changes_nothing() {
    let a = pattern(32, 5);
    let mut sink = RegionProcessor::new(a.clone(), vec![1u64]);
    sink.offset = 32;
    assert_eq!(sink.write(&[]), 0);
    let (baseline, words) = sink.into_parts();
    assert_eq!(baseline, a);
    assert_eq!(words, vec![1u64]);
}

#[test]
fn flush_changes_nothing() {
    let a = pattern(32, 5);
    let mut sink = RegionProcessor::new(a.clone(), vec![3u64]);
    sink.offset = 8;
    sink.flush();
    assert_eq!(sink.offset, 8);
    let (baseline, words) = sink.into_parts();
    assert_eq!(baseline, a);
    assert_eq!(words, vec![3u64]);
}

#[test]
fn diff_batch_records_the_descriptor() {
    let a = pattern(64, 1);
    let b = pattern(16, 77);
    let mut sink = RegionProcessor::new(a.clone(), Vec::new());
    let mut descriptors = vec![OffsetLength { offset: 0, len: 8 }];
    diff_batch(&mut sink, &mut descriptors, 32, &b);
    assert_eq!(
        descriptors,
        vec![OffsetLength { offset: 0, len: 8 }, OffsetLength { offset: 32, len: 16 }]
    );
    let (baseline, words) = sink.into_parts();
    assert_eq!(&baseline[32..48], &b[..]);
    assert_eq!(&baseline[..32], &a[..32]);
    assert_eq!(words, vec![word(&a[32..40]) ^ word(&b[..8]), word(&a[40..48]) ^ word(&b[8..])]);
}

#[test]
fn layout_checks_tell_fit_and_alignment() {
    let memory = pattern(2 * P, 1);
    let engine = SyncState::new(3 * P);
    assert!(fits_baseline(&engine, &[region(P, &memory, &[], &[])]));
    assert!(fits_baseline(&engine, &[region(P - 8, &memory, &[], &[])]));
    assert!(!fits_baseline(&engine, &[region(P + 8, &memory, &[], &[])]));
    assert!(!fits_baseline(&engine, &[region(usize::MAX, &memory, &[], &[])]));
    assert!(fits_baseline(&engine, &[]));
    assert!(!fits_baseline(
        &engine,
        &[region(0, &memory, &[], &[]), region(2 * P, &memory, &[], &[])]
    ));
    assert!(starts_on_pages(&[region(P, &memory, &[], &[])], P));
    assert!(!starts_on_pages(&[region(P - 8, &memory, &[], &[])], P));
    assert!(starts_on_pages(&[region(P - 8, &memory, &[], &[])], 8));
    assert!(!starts_on_pages(
        &[region(0, &memory, &[], &[]), region(P + 1, &memory, &[], &[])],
        P
    ));
    assert!(starts_on_pages(&[], P));
}

#[test]
fn regions_outside_the_baseline_are_refused() {
    let memory = pattern(2 * P, 1);
    let mut engine = SyncState::new(2 * P);
    let r = synchronize(&mut engine, &[region(P, &memory, &[0], &[])], P);
    assert_eq!(r, Err(SyncError::Layout));
    assert!(!engine.is_copied());
    assert_eq!(engine.prior_buffer, vec![0u8; 2 * P]);
    assert_eq!(synchronize(&mut engine, &[region(0, &memory, &[0], &[])], P), Ok(None));
    let r = synchronize(&mut engine, &[region(P, &memory, &[1], &[])], P);
    assert_eq!(r, Err(SyncError::Layout));
    assert_eq!(engine.prior_buffer, memory);
    assert!(engine.xor_data.is_empty());
}

#[test]
fn regions_off_a_page_boundary_are_refused() {
    let memory = pattern(2 * P, 1);
    let mut engine = SyncState::new(4 * P);
    // the first pass forms no batch and takes the region where it is
    assert_eq!(synchronize(&mut engine, &[region(8, &memory, &[0], &[])], P), Ok(None));
    assert_eq!(&engine.prior_buffer[8..2 * P + 8], &memory[..]);
    let before = engine.prior_buffer.clone();
    let r = synchronize(&mut engine, &[region(8, &memory, &[1], &[])], P);
    assert_eq!(r, Err(SyncError::Layout));
    assert_eq!(engine.prior_buffer, before);
    assert!(engine.xor_offsets.is_empty());
    // an unusable page size is found first
    let r = synchronize(&mut engine, &[region(8, &memory, &[1], &[])], 0);
    assert_eq!(r, Err(SyncError::PageSize));
}

#[test]
fn new_engine_is_empty() {
    let engine = SyncState::new(3 * P);
    assert!(!engine.is_copied());
    assert_eq!(engine.prior_buffer, vec![0u8; 3 * P]);
    assert!(engine.xor_data.is_empty());
    assert!(engine.xor_offsets.is_empty());
    let empty = SyncState::new(0);
    assert!(empty.prior_buffer.is_empty());
}

#[test]
fn set_dirty_marks_the_baseline_captured() {
    let mut engine = SyncState::new(16);
    engine.set_dirty();
    assert!(engine.is_copied());
    assert_eq!(engine.prior_buffer, vec![0u8; 16]);
}

#[test]
fn bootstrap_produces_no_diffs() {
    let memory = pattern(4 * P, 11);
    // dirty bits are not looked at on the first pass
    let bitmap = [0b1111u64];
    let mut engine = SyncState::new(4 * P);
    let r = synchronize(&mut engine, &[region(0, &memory, &bitmap, &[])], P);
    assert_eq!(r, Ok(None));
    assert!(engine.is_copied());
    assert_eq!(engine.prior_buffer, memory);
    assert!(engine.xor_data.is_empty());
    assert!(engine.xor_offsets.is_empty());
}

#[test]
fn bootstrap_ignores_the_page_size() {
    let memory = pattern(16, 11);
    let mut engine = SyncState::new(16);
    let r = synchronize(&mut engine, &[region(0, &memory, &[], &[])], 0);
    assert_eq!(r, Ok(None));
    assert_eq!(engine.prior_buffer, memory);
}

#[test]
fn full_snapshot_copies_every_region() {
    let first = pattern(2 * P, 1);
    let second = pattern(P, 2);
    let mut engine = SyncState::new(4 * P);
    capture_baseline(
        &mut engine,
        &[region(0, &first, &[], &[]), region(2 * P, &second, &[], &[])],
    );
    assert!(engine.is_copied());
    assert_eq!(&engine.prior_buffer[..2 * P], &first[..]);
    assert_eq!(&engine.prior_buffer[2 * P..3 * P], &second[..]);
    assert_eq!(&engine.prior_buffer[3 * P..], &vec![0u8; P][..]);
    assert!(engine.xor_data.is_empty());
}

#[test]
fn clean_pass_changes_nothing() {
    let mut memory = pattern(8 * P, 3);
    let mut engine = SyncState::new(8 * P);
    assert_eq!(synchronize(&mut engine, &[region(0, &memory, &[0], &[])], P), Ok(None));
    // memory changes, but no page is marked
    memory[5000] ^= 0xFF;
    let before = engine.prior_buffer.clone();
    let r = synchronize(&mut engine, &[region(0, &memory, &[0], &[false; 8])], P);
    assert_eq!(r, Ok(Some(0)));
    assert!(engine.xor_data.is_empty());
    assert!(engine.xor_offsets.is_empty());
    assert_eq!(engine.prior_buffer, before);
}

#[test]
fn dirty_pass_diffs_the_marked_pages() {
    let old = pattern(10 * P, 3);
    let mut memory = old.clone();
    let mut engine = SyncState::new(10 * P);
    synchronize(&mut engine, &[region(0, &memory, &[0], &[])], P).unwrap();
    for i in 2 * P..5 * P {
        memory[i] = memory[i].wrapping_add(1);
    }
    memory[9 * P + 17] = !memory[9 * P + 17];
    // an unmarked change stays out of the baseline
    memory[6 * P] = !memory[6 * P];
    let bitmap = [0b10_0001_1100u64];
    let r = synchronize(&mut engine, &[region(0, &memory, &bitmap, &[])], P);
    assert_eq!(r, Ok(Some(4 * (P as u64) / 8)));
    assert_eq!(
        engine.xor_offsets,
        vec![
            OffsetLength { offset: 2 * P, len: 3 * P },
            OffsetLength { offset: 9 * P, len: P }
        ]
    );
    assert_eq!(engine.xor_data.len(), 4 * P / 8);
    for i in 0..3 * P / 8 {
        let at = 2 * P + 8 * i;
        assert_eq!(engine.xor_data[i], word(&old[at..at + 8]) ^ word(&memory[at..at + 8]));
    }
    for i in 0..P / 8 {
        let at = 9 * P + 8 * i;
        assert_eq!(
            engine.xor_data[3 * P / 8 + i],
            word(&old[at..at + 8]) ^ word(&memory[at..at + 8])
        );
    }
    assert_eq!(&engine.prior_buffer[2 * P..5 * P], &memory[2 * P..5 * P]);
    assert_eq!(&engine.prior_buffer[9 * P..], &memory[9 * P..]);
    assert_eq!(&engine.prior_buffer[..2 * P], &old[..2 * P]);
    assert_eq!(&engine.prior_buffer[5 * P..9 * P], &old[5 * P..9 * P]);
}

#[test]
fn scenario_64_mib() {
    let size = 64 << 20;
    let mut memory = vec![0u8; size];
    for (i, b) in memory.iter_mut().enumerate().step_by(509) {
        *b = i as u8;
    }
    let mut engine = SyncState::new(size);
    let pages = size / P;
    let clean = vec![0u64; pages / 64];
    assert_eq!(synchronize(&mut engine, &[region(0, &memory, &clean, &[])], P), Ok(None));
    assert!(engine.is_copied());
    let old = memory.clone();
    for i in 4096..8192 {
        memory[i] = memory[i].wrapping_add(0x5A);
    }
    for i in 1048576..1056768 {
        memory[i] = memory[i].wrapping_add(0xA5);
    }
    let mut bitmap = clean.clone();
    bitmap[0] |= 1 << 1;
    bitmap[256 / 64] |= 0b11 << (256 % 64);
    let r = synchronize(&mut engine, &[region(0, &memory, &bitmap, &[])], P);
    assert_eq!(r, Ok(Some(1536)));
    assert_eq!(
        engine.xor_offsets,
        vec![
            OffsetLength { offset: 4096, len: 4096 },
            OffsetLength { offset: 1048576, len: 8192 }
        ]
    );
    assert_eq!(engine.xor_data.len(), 1536);
    assert_eq!(engine.prior_buffer.len(), size);
    assert!(engine.prior_buffer == memory);
    assert_eq!(engine.xor_data[0], word(&old[4096..4104]) ^ word(&memory[4096..4104]));
    assert_eq!(engine.xor_data[512], word(&old[1048576..1048584]) ^ word(&memory[1048576..1048584]));
    assert!(engine.xor_data.iter().any(|w| *w != 0));
}

#[test]
fn dirty_but_unchanged_page_logs_zero_words() {
    let memory = pattern(2 * P, 3);
    let mut engine = SyncState::new(2 * P);
    synchronize(&mut engine, &[region(0, &memory, &[0], &[])], P).unwrap();
    let r = synchronize(&mut engine, &[region(0, &memory, &[0], &[false, true])], P);
    assert_eq!(r, Ok(Some((P / 8) as u64)));
    assert_eq!(engine.xor_offsets, vec![OffsetLength { offset: P, len: P }]);
    assert_eq!(engine.xor_data, vec![0u64; P / 8]);
    assert_eq!(engine.prior_buffer, memory);
}

#[test]
fn regions_are_diffed_at_their_offsets() {
    let first = pattern(2 * P, 1);
    let second = pattern(2 * P, 2);
    let mut engine = SyncState::new(4 * P);
    let clean = [0u64];
    synchronize(
        &mut engine,
        &[region(0, &first, &clean, &[]), region(2 * P, &second, &clean, &[])],
        P,
    )
    .unwrap();
    let mut first_new = first.clone();
    first_new[10] ^= 1;
    let mut second_new = second.clone();
    second_new[P + 3] ^= 0x80;
    let r = synchronize(
        &mut engine,
        &[
            region(0, &first_new, &[0b01], &[]),
            region(2 * P, &second_new, &clean, &[false, true]),
        ],
        P,
    );
    assert_eq!(r, Ok(Some(2 * (P / 8) as u64)));
    assert_eq!(
        engine.xor_offsets,
        vec![OffsetLength { offset: 0, len: P }, OffsetLength { offset: 3 * P, len: P }]
    );
    assert_eq!(engine.xor_data[1], word(&first[8..16]) ^ word(&first_new[8..16]));
    assert_eq!(engine.xor_data[P / 8], word(&second[P..P + 8]) ^ word(&second_new[P..P + 8]));
    assert_eq!(&engine.prior_buffer[..2 * P], &first_new[..]);
    assert_eq!(&engine.prior_buffer[2 * P..], &second_new[..]);
}

#[test]
fn passes_accumulate_until_the_worker_drains() {
    let mut memory = pattern(4 * P, 3);
    let mut engine = SyncState::new(4 * P);
    synchronize(&mut engine, &[region(0, &memory, &[0], &[])], P).unwrap();
    memory[0] ^= 1;
    let r = synchronize(&mut engine, &[region(0, &memory, &[1], &[])], P);
    assert_eq!(r, Ok(Some(512)));
    memory[3 * P] ^= 1;
    let r = synchronize(&mut engine, &[region(0, &memory, &[8], &[])], P);
    assert_eq!(r, Ok(Some(1024)));
    assert_eq!(engine.xor_offsets.len(), 2);
    let next = worker_step(
        false,
        WorkerEvent::Signal(1024),
        &mut engine.xor_data,
        &mut engine.xor_offsets,
    );
    assert_eq!(next, WorkerState::Idle);
    assert!(engine.xor_data.is_empty());
    assert!(engine.xor_offsets.is_empty());
    assert_eq!(engine.prior_buffer, memory);
    assert!(engine.is_copied());
}

#[test]
fn unusable_page_size_is_an_error() {
    let memory = pattern(64, 3);
    let mut engine = SyncState::new(64);
    synchronize(&mut engine, &[region(0, &memory, &[0], &[])], 8).unwrap();
    let before = engine.prior_buffer.clone();
    for size in [0usize, 4, 12, 4097] {
        let r = synchronize(&mut engine, &[region(0, &memory, &[1], &[])], size);
        assert_eq!(r, Err(SyncError::PageSize));
        assert_eq!(engine.prior_buffer, before);
        assert!(engine.xor_data.is_empty());
        assert!(engine.xor_offsets.is_empty());
        assert!(engine.is_copied());
    }
}

#[test]
fn dirty_page_outside_the_region_is_an_error() {
    let first = pattern(2 * P, 1);
    let second = pattern(P, 2);
    let mut engine = SyncState::new(3 * P);
    let regions = [region(0, &first, &[0], &[]), region(2 * P, &second, &[0], &[])];
    synchronize(&mut engine, &regions, P).unwrap();
    let changed = pattern(2 * P, 9);
    // the first region has a dirty page and would be diffed; the second marks page 1 of 1
    let regions = [region(0, &changed, &[1], &[]), region(2 * P, &second, &[0b10], &[])];
    let r = synchronize(&mut engine, &regions, P);
    assert_eq!(r, Err(SyncError::RegionWrite));
    assert_eq!(&engine.prior_buffer[..2 * P], &first[..]);
    assert!(engine.xor_data.is_empty());
    assert!(engine.xor_offsets.is_empty());
}

#[test]
fn pass_over_no_regions_signals_the_backlog() {
    let mut engine = SyncState::new(0);
    assert_eq!(synchronize(&mut engine, &[], P), Ok(None));
    assert!(engine.is_copied());
    assert_eq!(synchronize(&mut engine, &[], P), Ok(Some(0)));
}

#[test]
fn short_bitmap_is_refused() {
    // 65 pages of 8 bytes need two words of bitmap
    let memory = pattern(65 * 8, 3);
    let mut engine = SyncState::new(65 * 8);
    assert_eq!(synchronize(&mut engine, &[region(0, &memory, &[], &[])], 8), Ok(None));
    let log = vec![true; 65];
    let r = synchronize(&mut engine, &[region(0, &memory, &[0], &log)], 8);
    assert_eq!(r, Err(SyncError::DirtyBitmap));
    assert!(engine.xor_data.is_empty());
    assert!(engine.xor_offsets.is_empty());
    let r = synchronize(&mut engine, &[region(0, &memory, &[0, 0], &log)], 8);
    assert_eq!(r, Ok(Some(65)));
    assert_eq!(engine.xor_offsets, vec![OffsetLength { offset: 0, len: 65 * 8 }]);
    assert!(bitmaps_cover(&[region(0, &memory, &[0, 0], &[])], 8));
    assert!(!bitmaps_cover(&[region(0, &memory, &[0], &[])], 8));
    assert!(bitmaps_cover(&[region(0, &memory[..64 * 8], &[0], &[])], 8));
    assert!(bitmaps_cover(&[], 8));
}

#[test]
fn layout_is_looked_at_before_the_bitmap() {
    let memory = pattern(65 * 8, 3);
    let mut engine = SyncState::new(64 * 8);
    engine.set_dirty();
    let r = synchronize(&mut engine, &[region(0, &memory, &[0], &[])], 8);
    assert_eq!(r, Err(SyncError::Layout));
}

#[test]
fn plan_holds_batches_and_their_bytes() {
    let memory = pattern(10 * 8, 3);
    let plan = plan_region(&region(16, &memory, &[0b10_0001_1100], &[]), 8).unwrap();
    assert_eq!(plan.offset, 16);
    assert_eq!(
        plan.batches,
        vec![OffsetLength { offset: 16, len: 24 }, OffsetLength { offset: 72, len: 8 }]
    );
    assert_eq!(plan.chunks, vec![memory[16..40].to_vec(), memory[72..80].to_vec()]);
    let clean = plan_region(&region(0, &memory, &[0], &[]), 8).unwrap();
    assert!(clean.batches.is_empty());
    assert!(clean.chunks.is_empty());
    assert!(plan_region(&region(0, &memory[..76], &[0b10_0000_0000], &[]), 8).is_none());
}

#[test]
fn plans_are_diffed_in_order() {
    let old = pattern(64, 1);
    let mut engine = SyncState::new(64);
    capture_baseline(&mut engine, &[region(0, &old, &[], &[])]);
    let first = RegionPlan {
        offset: 0,
        batches: vec![OffsetLength { offset: 8, len: 16 }],
        chunks: vec![pattern(16, 50)],
    };
    let second = RegionPlan {
        offset: 32,
        batches: vec![OffsetLength { offset: 0, len: 8 }, OffsetLength { offset: 24, len: 8 }],
        chunks: vec![pattern(8, 60), pattern(8, 70)],
    };
    let signal = diff_plans(&mut engine, &[first, second]);
    assert_eq!(signal, 4);
    assert_eq!(
        engine.xor_offsets,
        vec![
            OffsetLength { offset: 8, len: 16 },
            OffsetLength { offset: 32, len: 8 },
            OffsetLength { offset: 56, len: 8 }
        ]
    );
    assert_eq!(
        engine.xor_data,
        vec![
            word(&old[8..16]) ^ word(&pattern(16, 50)[..8]),
            word(&old[16..24]) ^ word(&pattern(16, 50)[8..]),
            word(&old[32..40]) ^ word(&pattern(8, 60)),
            word(&old[56..64]) ^ word(&pattern(8, 70)),
        ]
    );
    assert_eq!(&engine.prior_buffer[8..24], &pattern(16, 50)[..]);
    assert_eq!(&engine.prior_buffer[32..40], &pattern(8, 60)[..]);
    assert_eq!(&engine.prior_buffer[56..64], &pattern(8, 70)[..]);
    assert_eq!(&engine.prior_buffer[..8], &old[..8]);
    assert_eq!(&engine.prior_buffer[24..32], &old[24..32]);
    assert_eq!(&engine.prior_buffer[40..56], &old[40..56]);
    assert_eq!(diff_plans(&mut engine, &[]), 4);
}
