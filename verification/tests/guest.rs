use memsync::guest::{dirtypage_memory_snapshot, full_memory_snapshot, sync_snapshot_memory};
use memsync::sync::SyncError;
use memsync::sync_backend::{OffsetLength, SyncState};
use vm_memory::bitmap::AtomicBitmap;
use vm_memory::{Bytes, GuestAddress, GuestMemoryBackend, GuestMemoryMmap};

const P: usize = 4096;

type Guest = GuestMemoryMmap<AtomicBitmap>;

fn guest(ranges: &[(u64, usize)]) -> Guest {
    let ranges: Vec<(GuestAddress, usize)> =
        ranges.iter().map(|(a, n)| (GuestAddress(*a), *n)).collect();
    GuestMemoryMmap::<AtomicBitmap>::from_ranges(&ranges).unwrap()
}

fn clear_write_log(memory: &Guest) {
    for region in memory.iter() {
        let log: &AtomicBitmap = (**region).bitmap();
        log.reset_addr_range(0, (**region).size());
    }
}

fn word(bytes: &[u8]) -> u64 {
    let mut w = [0u8; 8];
    w.copy_from_slice(bytes);
    u64::from_ne_bytes(w)
}

fn pattern(len: usize, seed: u8) -> Vec<u8> {
    (0..len).map(|i| (i as u8).wrapping_mul(31).wrapping_add(seed)).collect()
}

#[test]
fn guest_bootstrap_captures_memory() {
    let memory = guest(&[(0, 4 * P)]);
    let content = pattern(4 * P, 5);
    memory.write_slice(&content, GuestAddress(0)).unwrap();
    let mut engine = SyncState::new(4 * P);
    let r = sync_snapshot_memory(&mut engine, &memory, &[vec![u64::MAX]], P);
    assert_eq!(r, Ok(None));
    assert!(engine.is_copied());
    assert_eq!(engine.prior_buffer, content);
    assert!(engine.xor_data.is_empty());
    assert!(engine.xor_offsets.is_empty());
}

#[test]
fn guest_full_snapshot_lays_regions_out_in_order() {
    let memory = guest(&[(0, 2 * P), (0x10_0000, P)]);
    let first = pattern(2 * P, 1);
    let second = pattern(P, 2);
    memory.write_slice(&first, GuestAddress(0)).unwrap();
    memory.write_slice(&second, GuestAddress(0x10_0000)).unwrap();
    let mut engine = SyncState::new(4 * P);
    assert_eq!(full_memory_snapshot(&mut engine, &memory), Ok(()));
    assert!(engine.is_copied());
    assert_eq!(&engine.prior_buffer[..2 * P], &first[..]);
    assert_eq!(&engine.prior_buffer[2 * P..3 * P], &second[..]);
    assert_eq!(&engine.prior_buffer[3 * P..], &vec![0u8; P][..]);
}

#[test]
fn guest_memory_larger_than_the_baseline_is_refused() {
    let memory = guest(&[(0, 2 * P)]);
    let mut engine = SyncState::new(2 * P - 1);
    assert_eq!(full_memory_snapshot(&mut engine, &memory), Err(SyncError::Layout));
    assert!(!engine.is_copied());
    assert_eq!(engine.prior_buffer, vec![0u8; 2 * P - 1]);
    assert_eq!(
        sync_snapshot_memory(&mut engine, &memory, &[vec![0]], P),
        Err(SyncError::Layout)
    );
    assert!(!engine.is_copied());
}

#[test]
fn guest_pass_follows_the_write_log() {
    let memory = guest(&[(0, 16 * P)]);
    let old = pattern(16 * P, 7);
    memory.write_slice(&old, GuestAddress(0)).unwrap();
    let mut engine = SyncState::new(16 * P);
    let clean = [vec![0u64]];
    assert_eq!(sync_snapshot_memory(&mut engine, &memory, &clean, P), Ok(None));
    clear_write_log(&memory);
    // nothing written since: nothing to do
    assert_eq!(sync_snapshot_memory(&mut engine, &memory, &clean, P), Ok(Some(0)));
    assert!(engine.xor_offsets.is_empty());
    assert_eq!(engine.prior_buffer, old);
    // the guest writes into pages 2..5 and page 9
    let fresh = pattern(3 * P, 99);
    memory.write_slice(&fresh, GuestAddress(2 * P as u64)).unwrap();
    memory.write_slice(&[0xEE; 8], GuestAddress(9 * P as u64 + 16)).unwrap();
    let r = sync_snapshot_memory(&mut engine, &memory, &clean, P);
    assert_eq!(r, Ok(Some(4 * P as u64 / 8)));
    assert_eq!(
        engine.xor_offsets,
        vec![
            OffsetLength { offset: 2 * P, len: 3 * P },
            OffsetLength { offset: 9 * P, len: P }
        ]
    );
    assert_eq!(engine.xor_data.len(), 4 * P / 8);
    for i in 0..3 * P / 8 {
        let at = 2 * P + 8 * i;
        assert_eq!(engine.xor_data[i], word(&old[at..at + 8]) ^ word(&fresh[8 * i..8 * i + 8]));
    }
    let at = 9 * P + 16;
    assert_eq!(
        engine.xor_data[3 * P / 8 + 2],
        word(&old[at..at + 8]) ^ word(&[0xEE; 8])
    );
    assert_eq!(engine.xor_data[3 * P / 8], 0);
    let mut now = vec![0u8; 16 * P];
    memory.read_slice(&mut now, GuestAddress(0)).unwrap();
    assert_eq!(engine.prior_buffer, now);
}

#[test]
fn guest_pass_follows_the_hypervisor_bitmap() {
    let memory = guest(&[(0, 10 * P)]);
    let old = pattern(10 * P, 7);
    memory.write_slice(&old, GuestAddress(0)).unwrap();
    let mut engine = SyncState::new(10 * P);
    assert_eq!(sync_snapshot_memory(&mut engine, &memory, &[vec![0]], P), Ok(None));
    clear_write_log(&memory);
    // pages 2, 3, 4 and 9 are marked although nothing was written
    let r = dirtypage_memory_snapshot(&mut engine, &memory, &[vec![0b10_0001_1100]], P);
    assert_eq!(r, Ok(Some(4 * P as u64 / 8)));
    assert_eq!(
        engine.xor_offsets,
        vec![
            OffsetLength { offset: 2 * P, len: 3 * P },
            OffsetLength { offset: 9 * P, len: P }
        ]
    );
    assert_eq!(engine.xor_data, vec![0u64; 4 * P / 8]);
    assert_eq!(engine.prior_buffer, old);
}

#[test]
fn guest_scenario_64_mib() {
    let size = 64 << 20;
    let memory = guest(&[(0, size)]);
    memory.write_slice(&pattern(3 * P, 1), GuestAddress(0)).unwrap();
    let mut engine = SyncState::new(size);
    let clean = [vec![0u64; size / P / 64]];
    assert_eq!(sync_snapshot_memory(&mut engine, &memory, &clean, P), Ok(None));
    clear_write_log(&memory);
    let before = engine.prior_buffer.clone();
    memory.write_slice(&pattern(4096, 50), GuestAddress(4096)).unwrap();
    memory.write_slice(&pattern(8192, 60), GuestAddress(1048576)).unwrap();
    let r = sync_snapshot_memory(&mut engine, &memory, &clean, P);
    assert_eq!(r, Ok(Some(1536)));
    assert_eq!(
        engine.xor_offsets,
        vec![
            OffsetLength { offset: 4096, len: 4096 },
            OffsetLength { offset: 1048576, len: 8192 }
        ]
    );
    assert_eq!(engine.xor_data.len(), 1536);
    assert_eq!(&engine.prior_buffer[4096..8192], &pattern(4096, 50)[..]);
    assert_eq!(&engine.prior_buffer[1048576..1056768], &pattern(8192, 60)[..]);
    assert_eq!(&engine.prior_buffer[..4096], &before[..4096]);
    assert_eq!(&engine.prior_buffer[8192..1048576], &before[8192..1048576]);
    assert_eq!(&engine.prior_buffer[1056768..], &before[1056768..]);
}

#[test]
fn guest_regions_are_diffed_at_their_offsets() {
    let memory = guest(&[(0, 2 * P), (0x10_0000, 2 * P)]);
    let mut engine = SyncState::new(4 * P);
    let clean = [vec![0u64], vec![0u64]];
    assert_eq!(sync_snapshot_memory(&mut engine, &memory, &clean, P), Ok(None));
    clear_write_log(&memory);
    memory.write_slice(&[1; 8], GuestAddress(8)).unwrap();
    memory.write_slice(&[2; 8], GuestAddress(0x10_0000 + P as u64)).unwrap();
    let r = sync_snapshot_memory(&mut engine, &memory, &clean, P);
    assert_eq!(r, Ok(Some(2 * P as u64 / 8)));
    assert_eq!(
        engine.xor_offsets,
        vec![OffsetLength { offset: 0, len: P }, OffsetLength { offset: 3 * P, len: P }]
    );
    assert_eq!(engine.xor_data[1], word(&[1; 8]));
    assert_eq!(engine.xor_data[P / 8], word(&[2; 8]));
    assert_eq!(&engine.prior_buffer[8..16], &[1u8; 8][..]);
    assert_eq!(&engine.prior_buffer[3 * P..3 * P + 8], &[2u8; 8][..]);
}

#[test]
fn guest_pass_needs_a_bitmap_for_every_slot() {
    let memory = guest(&[(0, 2 * P), (0x10_0000, 2 * P)]);
    let mut engine = SyncState::new(4 * P);
    assert_eq!(sync_snapshot_memory(&mut engine, &memory, &[], P), Ok(None));
    memory.write_slice(&[1; 8], GuestAddress(8)).unwrap();
    let before = engine.prior_buffer.clone();
    let r = sync_snapshot_memory(&mut engine, &memory, &[vec![0u64]], P);
    assert_eq!(r, Err(SyncError::DirtyBitmap));
    assert_eq!(engine.prior_buffer, before);
    assert!(engine.xor_data.is_empty());
    assert!(engine.xor_offsets.is_empty());
}

#[test]
fn guest_pass_refuses_unusable_page_sizes() {
    let memory = guest(&[(0, 2 * P)]);
    let mut engine = SyncState::new(2 * P);
    assert_eq!(sync_snapshot_memory(&mut engine, &memory, &[vec![0]], 0), Ok(None));
    for size in [0usize, 4, 4100] {
        let r = sync_snapshot_memory(&mut engine, &memory, &[vec![1]], size);
        assert_eq!(r, Err(SyncError::PageSize));
        assert!(engine.xor_data.is_empty());
    }
}

#[test]
fn guest_page_marked_outside_the_region_is_refused() {
    let memory = guest(&[(0, 2 * P)]);
    let mut engine = SyncState::new(2 * P);
    assert_eq!(sync_snapshot_memory(&mut engine, &memory, &[vec![0]], P), Ok(None));
    clear_write_log(&memory);
    memory.write_slice(&[1; 8], GuestAddress(0)).unwrap();
    let before = engine.prior_buffer.clone();
    let r = sync_snapshot_memory(&mut engine, &memory, &[vec![0b100]], P);
    assert_eq!(r, Err(SyncError::RegionWrite));
    assert_eq!(engine.prior_buffer, before);
    assert!(engine.xor_data.is_empty());
    assert!(engine.xor_offsets.is_empty());
}

#[test]
fn guest_region_off_a_page_boundary_is_refused() {
    let memory = guest(&[(0, 2 * P), (0x10_0000, 2 * P)]);
    let mut engine = SyncState::new(4 * P);
    assert_eq!(sync_snapshot_memory(&mut engine, &memory, &[], P), Ok(None));
    // with pages of 3 * 4096 bytes the second region would start inside a page
    let r = sync_snapshot_memory(&mut engine, &memory, &[vec![0], vec![0]], 3 * P);
    assert_eq!(r, Err(SyncError::Layout));
}

#[test]
fn guest_without_regions_has_nothing_to_diff() {
    let memory = Guest::default();
    let mut engine = SyncState::new(0);
    assert_eq!(sync_snapshot_memory(&mut engine, &memory, &[], P), Ok(None));
    assert_eq!(sync_snapshot_memory(&mut engine, &memory, &[], P), Ok(Some(0)));
}

#[test]
fn guest_bitmap_shorter_than_the_region_is_refused() {
    let memory = guest(&[(0, 65 * P)]);
    let mut engine = SyncState::new(65 * P);
    assert_eq!(sync_snapshot_memory(&mut engine, &memory, &[], P), Ok(None));
    clear_write_log(&memory);
    // the write log marks the last page, which a bitmap of one word has no bit for
    memory.write_slice(&[1; 8], GuestAddress(64 * P as u64)).unwrap();
    let before = engine.prior_buffer.clone();
    let r = sync_snapshot_memory(&mut engine, &memory, &[vec![0u64]], P);
    assert_eq!(r, Err(SyncError::DirtyBitmap));
    assert_eq!(engine.prior_buffer, before);
    assert!(engine.xor_offsets.is_empty());
    let r = sync_snapshot_memory(&mut engine, &memory, &[vec![0u64, 0]], P);
    assert_eq!(r, Ok(Some(P as u64 / 8)));
    assert_eq!(engine.xor_offsets, vec![OffsetLength { offset: 64 * P, len: P }]);
    assert_eq!(&engine.prior_buffer[64 * P..64 * P + 8], &[1u8; 8][..]);
}

#[test]
fn guest_layout_is_looked_at_before_the_bitmaps() {
    let memory = guest(&[(0, 2 * P)]);
    let mut engine = SyncState::new(P);
    engine.set_dirty();
    assert_eq!(sync_snapshot_memory(&mut engine, &memory, &[], P), Err(SyncError::Layout));
    assert_eq!(sync_snapshot_memory(&mut engine, &memory, &[], 12), Err(SyncError::PageSize));
}

#[test]
fn guest_full_snapshot_succeeds_whenever_the_regions_fit() {
    for pages in [1usize, 3, 64, 65] {
        let memory = guest(&[(0, pages * P), (0x100_0000, P)]);
        let content = pattern(pages * P, pages as u8);
        memory.write_slice(&content, GuestAddress(0)).unwrap();
        let mut engine = SyncState::new((pages + 1) * P + 8);
        assert_eq!(full_memory_snapshot(&mut engine, &memory), Ok(()));
        assert!(engine.is_copied());
        assert_eq!(&engine.prior_buffer[..pages * P], &content[..]);
        // an engine that has a baseline takes a new one
        memory.write_slice(&[0xAB; 8], GuestAddress(0x100_0000)).unwrap();
        assert_eq!(full_memory_snapshot(&mut engine, &memory), Ok(()));
        assert_eq!(&engine.prior_buffer[pages * P..pages * P + 8], &[0xABu8; 8][..]);
        let mut small = SyncState::new((pages + 1) * P - 1);
        assert_eq!(full_memory_snapshot(&mut small, &memory), Err(SyncError::Layout));
    }
}

#[test]
fn guest_later_pass_fails_only_for_a_page_outside_its_region() {
    let memory = guest(&[(0, 2 * P), (0x100_0000, 3 * P)]);
    let mut engine = SyncState::new(5 * P);
    assert_eq!(sync_snapshot_memory(&mut engine, &memory, &[], P), Ok(None));
    clear_write_log(&memory);
    let clean = vec![0u64];
    for first in 0..4u64 {
        for second in 0..8u64 {
            let r = sync_snapshot_memory(&mut engine, &memory, &[vec![first], vec![second]], P);
            assert!(r.is_ok(), "{} {}", first, second);
        }
    }
    assert_eq!(
        sync_snapshot_memory(&mut engine, &memory, &[vec![4], clean.clone()], P),
        Err(SyncError::RegionWrite)
    );
    assert_eq!(
        sync_snapshot_memory(&mut engine, &memory, &[clean.clone(), vec![8]], P),
        Err(SyncError::RegionWrite)
    );
}
