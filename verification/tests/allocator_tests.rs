use wasabi_alloc::arena::{Arena, PAGE_4K_ALIGN, PAGE_4K_SIZE};
use wasabi_alloc::chunk::{Header, HEADER_SIZE};
use wasabi_alloc::err::AllocError;
use wasabi_alloc::pow2::{is_power_of_two, MAX_POW2};
use wasabi_alloc::round_up_to_nearest_pow2;

fn arena_with(start: usize, len: usize) -> Arena {
    let mut a = Arena::new();
    assert!(a.ingest_range(start, len));
    a
}

fn chunks_of(a: &Arena) -> Vec<Header> {
    let mut v = Vec::new();
    for i in 0..a.chunk_count() {
        v.push(a.chunk_at(i));
    }
    v
}

fn total_free_of(a: &Arena) -> usize {
    chunks_of(a).iter().filter(|c| !c.allocated).map(|c| c.size).sum()
}

fn assert_no_adjacent_free(a: &Arena) {
    let cs = chunks_of(a);
    for w in cs.windows(2) {
        if w[0].addr + w[0].size == w[1].addr {
            assert!(w[0].allocated || w[1].allocated, "two touching chunks are both free");
        }
    }
}

#[test]
fn round_up_exact_values() {
    assert_eq!(round_up_to_nearest_pow2(1), Ok(1));
    assert_eq!(round_up_to_nearest_pow2(2), Ok(2));
    assert_eq!(round_up_to_nearest_pow2(3), Ok(4));
    assert_eq!(round_up_to_nearest_pow2(5), Ok(8));
    assert_eq!(round_up_to_nearest_pow2(7), Ok(8));
    assert_eq!(round_up_to_nearest_pow2(32), Ok(32));
    assert_eq!(round_up_to_nearest_pow2(33), Ok(64));
    assert_eq!(round_up_to_nearest_pow2(1000), Ok(1024));
    assert_eq!(round_up_to_nearest_pow2(4096), Ok(4096));
}

#[test]
fn round_up_large_values() {
    let top: usize = 1usize << (usize::BITS - 1);
    assert_eq!(MAX_POW2, top);
    assert_eq!(round_up_to_nearest_pow2(top), Ok(top));
    assert_eq!(round_up_to_nearest_pow2(top - 1), Ok(top));
    assert_eq!(round_up_to_nearest_pow2((top >> 1) + 1), Ok(top));
}

#[test]
fn round_up_result_is_pow2_and_not_below() {
    for v in 1usize..=2000 {
        let r = round_up_to_nearest_pow2(v).unwrap();
        assert!(r.is_power_of_two());
        assert!(r >= v);
        assert!(r < 2 * v);
        if v.is_power_of_two() {
            assert_eq!(r, v);
        }
    }
}

#[test]
fn round_up_out_of_range() {
    assert_eq!(round_up_to_nearest_pow2(0), Err(AllocError::OutOfRange));
    assert_eq!(round_up_to_nearest_pow2(MAX_POW2 + 1), Err(AllocError::OutOfRange));
    assert_eq!(round_up_to_nearest_pow2(usize::MAX), Err(AllocError::OutOfRange));
}

#[test]
fn power_of_two_check() {
    assert!(is_power_of_two(1));
    assert!(is_power_of_two(2));
    assert!(is_power_of_two(4096));
    assert!(is_power_of_two(MAX_POW2));
    assert!(!is_power_of_two(0));
    assert!(!is_power_of_two(3));
    assert!(!is_power_of_two(12));
    assert!(!is_power_of_two(usize::MAX));
}

#[test]
fn can_provide_matches_formula() {
    let sizes = [32usize, 64, 96, 128, 192, 256, 512, 4096];
    let reqs = [1usize, 31, 32, 64, 129, 256, 512];
    let aligns = [1usize, 2, 32, 64, 128];
    for &s in &sizes {
        let c = Header { addr: 0, size: s, allocated: false };
        for &size in &reqs {
            for &align in &aligns {
                let expect = s >= size + 2 * HEADER_SIZE + align;
                assert_eq!(c.can_provide(size, align), expect);
            }
        }
    }
}

#[test]
fn can_provide_boundaries() {
    let c = Header { addr: 0, size: 256, allocated: false };
    assert!(c.can_provide(32, 32)); // 256 >= 32 + 64 + 32
    assert!(c.can_provide(128, 64)); // 256 >= 128 + 64 + 64 exactly
    assert!(!c.can_provide(129, 64));
    assert!(!c.can_provide(512, 32)); // 256 < 512 + 64 + 32
    assert!(!c.can_provide(usize::MAX, usize::MAX));
}

#[test]
fn header_getters() {
    let c = Header { addr: 64, size: 256, allocated: false };
    assert_eq!(c.end_addr(), 320);
    assert!(!c.is_allocated());
    let d = Header { addr: 0, size: 32, allocated: true };
    assert!(d.is_allocated());
}

#[test]
fn provide_splits_at_top() {
    // one free chunk of size 256 at address 0; a 32-byte request aligned to
    // 32 lands at 224, the shrunk original keeps [0, 192)
    let mut c = Header { addr: 0, size: 256, allocated: false };
    let s = c.provide(32, 32).unwrap();
    assert_eq!(s.alloc_addr, 224);
    assert_eq!(c, Header { addr: 0, size: 192, allocated: false });
    assert_eq!(s.alloc_chunk, Header { addr: 192, size: 64, allocated: true });
    assert!(s.pad_chunk.is_none());
}

#[test]
fn provide_normalizes_small_requests() {
    // size and alignment are both floored to HEADER_SIZE, so a (1, 1)
    // request behaves exactly like a (32, 32) request
    let mut c = Header { addr: 0, size: 256, allocated: false };
    let s = c.provide(1, 1).unwrap();
    assert_eq!(s.alloc_addr, 224);
    assert_eq!(c, Header { addr: 0, size: 192, allocated: false });
    assert_eq!(s.alloc_chunk, Header { addr: 192, size: 64, allocated: true });
    assert!(s.pad_chunk.is_none());
}

#[test]
fn provide_leaves_padding_chunk() {
    // alignment pushes the payload down to 384, leaving [416, 512) free
    let mut c = Header { addr: 0, size: 512, allocated: false };
    let s = c.provide(32, 128).unwrap();
    assert_eq!(s.alloc_addr, 384);
    assert_eq!(c, Header { addr: 0, size: 352, allocated: false });
    assert_eq!(s.alloc_chunk, Header { addr: 352, size: 64, allocated: true });
    assert_eq!(s.pad_chunk, Some(Header { addr: 416, size: 96, allocated: false }));
}

#[test]
fn provide_refuses() {
    let mut allocated = Header { addr: 0, size: 256, allocated: true };
    assert!(allocated.provide(32, 32).is_none());
    let mut small = Header { addr: 0, size: 256, allocated: false };
    assert!(small.provide(512, 32).is_none());
    assert!(small.provide(0, 32).is_none());
    assert_eq!(small, Header { addr: 0, size: 256, allocated: false });
}

#[test]
fn arena_first_scenario() {
    let mut a = arena_with(0, 256);
    assert_eq!(a.allocate(32, 32), Ok(224));
    assert_eq!(
        chunks_of(&a),
        vec![
            Header { addr: 0, size: 192, allocated: false },
            Header { addr: 192, size: 64, allocated: true },
        ]
    );
}

#[test]
fn arena_out_of_memory() {
    // 256 < 512 + 64 + 32, so the only chunk cannot provide
    let mut a = arena_with(0, 256);
    assert_eq!(a.allocate(512, 32), Err(AllocError::OutOfMemory));
    assert_eq!(chunks_of(&a), vec![Header { addr: 0, size: 256, allocated: false }]);
}

#[test]
fn arena_out_of_range() {
    let mut a = arena_with(0, 256);
    assert_eq!(a.allocate(0, 32), Err(AllocError::OutOfRange));
    assert_eq!(a.allocate(usize::MAX, 32), Err(AllocError::OutOfRange));
}

#[test]
fn deallocate_restores_single_chunk() {
    // freeing the only allocation merges everything back into [0, 256)
    let mut a = arena_with(0, 256);
    assert_eq!(a.allocate(32, 32), Ok(224));
    assert_eq!(a.deallocate(224, 32, 32), Ok(()));
    assert_eq!(chunks_of(&a), vec![Header { addr: 0, size: 256, allocated: false }]);
}

#[test]
fn allocate_deallocate_round_trip() {
    let mut a = arena_with(0, 1024);
    let before = chunks_of(&a);
    let free_before = total_free_of(&a);
    let addr = a.allocate(48, 16).unwrap();
    assert!(total_free_of(&a) < free_before);
    assert_eq!(a.deallocate(addr, 48, 16), Ok(()));
    assert_eq!(chunks_of(&a), before);
    assert_eq!(total_free_of(&a), free_before);
}

#[test]
fn deallocate_keeps_coalescing_invariant() {
    let mut a = arena_with(0, 1024);
    let a1 = a.allocate(32, 32).unwrap();
    let a2 = a.allocate(32, 32).unwrap();
    assert_eq!(a1, 992);
    assert_eq!(a2, 928);
    assert_eq!(a.deallocate(a1, 32, 32), Ok(()));
    assert_no_adjacent_free(&a);
    assert_eq!(a.deallocate(a2, 32, 32), Ok(()));
    assert_no_adjacent_free(&a);
    assert_eq!(chunks_of(&a), vec![Header { addr: 0, size: 1024, allocated: false }]);
}

#[test]
fn deallocate_double_free() {
    // the freed chunk touches only an allocated neighbour, so its header
    // survives the free and the second attempt finds it already free
    let mut a = arena_with(0, 1024);
    let a1 = a.allocate(32, 32).unwrap();
    let _a2 = a.allocate(32, 32).unwrap();
    assert_eq!(a.deallocate(a1, 32, 32), Ok(()));
    assert_eq!(a.deallocate(a1, 32, 32), Err(AllocError::DoubleFree));
}

#[test]
fn refree_after_coalescing_is_invalid() {
    // here coalescing absorbed the freed chunk's header, so a second free
    // of the same address no longer finds any header to validate
    let mut a = arena_with(0, 256);
    let addr = a.allocate(32, 32).unwrap();
    assert_eq!(a.deallocate(addr, 32, 32), Ok(()));
    assert_eq!(a.deallocate(addr, 32, 32), Err(AllocError::InvalidFree));
}

#[test]
fn deallocate_invalid_free() {
    let mut a = arena_with(0, 256);
    a.allocate(32, 32).unwrap();
    // no chunk header sits at 100 - 32
    assert_eq!(a.deallocate(100, 32, 32), Err(AllocError::InvalidFree));
    // an address below HEADER_SIZE cannot hold a header at all
    assert_eq!(a.deallocate(16, 32, 32), Err(AllocError::InvalidFree));
}

#[test]
fn allocation_is_aligned_and_contained() {
    let mut a = arena_with(0, 512);
    let addr = a.allocate(32, 128).unwrap();
    assert_eq!(addr, 384);
    assert_eq!(addr % 128, 0);
    assert!(addr >= HEADER_SIZE && addr + 32 <= 512);
    // the chain still partitions without overlap
    let cs = chunks_of(&a);
    for w in cs.windows(2) {
        assert!(w[0].addr + w[0].size <= w[1].addr);
    }
    assert_no_adjacent_free(&a);
}

#[test]
fn ingest_merges_touching_range() {
    let mut a = Arena::new();
    assert!(a.ingest_range(0, 128));
    assert!(a.ingest_range(128, 128));
    assert_eq!(chunks_of(&a), vec![Header { addr: 0, size: 256, allocated: false }]);
    assert!(a.ingest_range(512, 128));
    assert_eq!(a.chunk_count(), 2);
}

#[test]
fn ingest_rejects_bad_ranges() {
    let mut a = arena_with(0, 256);
    assert!(!a.ingest_range(300, 64)); // start not header-granular
    assert!(!a.ingest_range(320, 16)); // too small for a header
    assert!(!a.ingest_range(320, 33)); // length not header-granular
    assert!(!a.ingest_range(128, 64)); // overlaps the existing chain
    assert!(!a.ingest_range(usize::MAX - 31, 64)); // past the address space
    assert_eq!(chunks_of(&a), vec![Header { addr: 0, size: 256, allocated: false }]);
}

#[test]
fn grow_retries_once() {
    let mut a = arena_with(0, 128);
    // 128 < 64 + 64 + 32, so the chain alone cannot serve the request
    assert_eq!(a.allocate(64, 32), Err(AllocError::OutOfMemory));
    assert_eq!(a.allocate_with_grow(64, 32, Some((4096, 256))), Ok(4288));
    assert_eq!(a.chunk_count(), 3);
}

#[test]
fn grow_without_extra_range_fails() {
    let mut a = arena_with(0, 128);
    assert_eq!(a.allocate_with_grow(64, 32, None), Err(AllocError::OutOfMemory));
    assert_eq!(chunks_of(&a), vec![Header { addr: 0, size: 128, allocated: false }]);
}

#[test]
fn grow_with_bad_range_fails() {
    let mut a = arena_with(0, 128);
    // the offered range is rejected (not header-granular), so no retry helps
    assert_eq!(a.allocate_with_grow(64, 32, Some((4100, 256))), Err(AllocError::OutOfMemory));
    assert_eq!(chunks_of(&a), vec![Header { addr: 0, size: 128, allocated: false }]);
}

#[test]
fn grow_keeps_range_even_on_failure() {
    let mut a = arena_with(0, 128);
    // the new range is ingested but still too small for the request
    assert_eq!(a.allocate_with_grow(512, 32, Some((4096, 128))), Err(AllocError::OutOfMemory));
    assert_eq!(
        chunks_of(&a),
        vec![
            Header { addr: 0, size: 128, allocated: false },
            Header { addr: 4096, size: 128, allocated: false },
        ]
    );
}

#[test]
fn page_granularity_requests() {
    let mut a = arena_with(0x10_0000, 0x8000);
    let page = a.allocate(PAGE_4K_SIZE, PAGE_4K_ALIGN).unwrap();
    assert_eq!(page % PAGE_4K_ALIGN, 0);
    assert_eq!(page, 0x10_0000 + 0x8000 - PAGE_4K_SIZE);
    assert_eq!(a.deallocate(page, PAGE_4K_SIZE, PAGE_4K_ALIGN), Ok(()));
    assert_eq!(
        chunks_of(&a),
        vec![Header { addr: 0x10_0000, size: 0x8000, allocated: false }]
    );
}

#[test]
fn grow_not_needed_when_chain_serves() {
    let mut a = arena_with(0, 256);
    assert_eq!(a.allocate_with_grow(32, 32, Some((4096, 256))), Ok(224));
    // the extra range was never ingested
    assert_eq!(a.chunk_count(), 2);
}
