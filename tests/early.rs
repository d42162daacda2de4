use bump_allocator::{AllocError, EarlyAllocator};

fn arena() -> EarlyAllocator<1024> {
    let mut a: EarlyAllocator<1024> = EarlyAllocator::new();
    a.init(0x8000, 4096);
    a
}

#[test]
fn new_allocator_is_empty() {
    let a: EarlyAllocator<1024> = EarlyAllocator::new();
    assert_eq!(a.total_bytes(), 0);
    assert_eq!(a.available_bytes(), 0);
    assert_eq!(a.total_pages(), 0);
    assert_eq!(a.available_pages(), 0);
}

#[test]
fn init_gives_whole_range() {
    let a = arena();
    assert_eq!(a.total_bytes(), 0);
    assert_eq!(a.used_bytes(), 0);
    assert_eq!(a.available_bytes(), 4096);
    assert_eq!(a.total_pages(), 0);
    assert_eq!(a.used_pages(), 0);
    assert_eq!(a.available_pages(), 4);
}

#[test]
fn bytes_then_pages_scenario() {
    let mut a = arena();
    assert_eq!(a.alloc_bytes(100, 8), Ok(0x8000));
    assert_eq!(a.used_bytes(), 100);
    assert_eq!(a.alloc_pages(1, 1024), Ok(0x8000 + 3072));
    assert_eq!(a.alloc_pages(1, 1024), Ok(0x8000 + 2048));
    assert_eq!(a.alloc_pages(1, 1024), Ok(0x8000 + 1024));
    assert_eq!(a.alloc_pages(1, 1024), Err(AllocError::NoMemory));
    assert_eq!(a.total_pages(), 3);
    assert_eq!(a.used_pages(), 3);
    assert_eq!(a.available_bytes(), 1024 - 100);
}

#[test]
fn release_resets_byte_cursor() {
    let mut a = arena();
    let first = a.alloc_bytes(50, 8).unwrap();
    a.dealloc(first, 50, 8);
    assert_eq!(a.used_bytes(), 0);
    assert_eq!(a.available_bytes(), 4096);
    assert_eq!(a.alloc_bytes(50, 8), Ok(first));
}

#[test]
fn release_waits_for_last_allocation() {
    let mut a = arena();
    let x = a.alloc_bytes(10, 1).unwrap();
    let y = a.alloc_bytes(20, 1).unwrap();
    a.dealloc(x, 10, 1);
    assert_eq!(a.used_bytes(), 30);
    a.dealloc(y, 20, 1);
    assert_eq!(a.used_bytes(), 0);
    assert_eq!(a.alloc_bytes(30, 1), Ok(0x8000));
}

#[test]
fn oversized_request_fails_and_keeps_cursor() {
    let mut a = arena();
    a.alloc_bytes(10, 1).unwrap();
    let avail = a.available_bytes();
    assert_eq!(a.alloc_bytes(avail + 1, 1), Err(AllocError::NoMemory));
    assert_eq!(a.used_bytes(), 10);
    assert_eq!(a.available_bytes(), avail);
}

#[test]
fn request_touching_page_region_fails() {
    let mut a = arena();
    assert_eq!(a.alloc_bytes(4096, 1), Err(AllocError::NoMemory));
    assert_eq!(a.alloc_bytes(4095, 1), Ok(0x8000));
    assert_eq!(a.available_bytes(), 1);
}

#[test]
fn byte_addresses_are_aligned_and_disjoint() {
    let mut a = arena();
    let p = a.alloc_bytes(3, 1).unwrap();
    let q = a.alloc_bytes(8, 16).unwrap();
    let r = a.alloc_bytes(5, 64).unwrap();
    assert_eq!(p, 0x8000);
    assert_eq!(q, 0x8010);
    assert_eq!(r, 0x8040);
    assert!(p + 3 <= q && q + 8 <= r);
    assert_eq!(q % 16, 0);
    assert_eq!(r % 64, 0);
}

#[test]
fn alignment_near_top_of_address_space_fails() {
    let mut a: EarlyAllocator<1024> = EarlyAllocator::new();
    a.init(usize::MAX - 100, 100);
    assert_eq!(a.alloc_bytes(1, 1), Ok(usize::MAX - 100));
    assert_eq!(a.alloc_bytes(1, 1 << 20), Err(AllocError::NoMemory));
    assert_eq!(a.used_bytes(), 1);
}

#[test]
fn page_addresses_are_page_multiples_above_bytes() {
    let mut a = arena();
    let b = a.alloc_bytes(200, 1).unwrap();
    let p = a.alloc_pages(2, 1024).unwrap();
    assert_eq!(p % 1024, 0);
    assert!(p > b + 200);
    assert_eq!(p, 0x8000 + 2048);
}

#[test]
fn page_request_larger_than_range_fails() {
    let mut a = arena();
    assert_eq!(a.alloc_pages(4, 1024), Err(AllocError::NoMemory));
    assert_eq!(a.alloc_pages(usize::MAX, 1024), Err(AllocError::NoMemory));
    assert_eq!(a.alloc_pages(1 << 60, 1024), Err(AllocError::NoMemory));
    assert_eq!(a.total_pages(), 0);
    assert_eq!(a.available_bytes(), 4096);
}

#[test]
fn page_count_of_zero_keeps_cursor() {
    let mut a = arena();
    assert_eq!(a.alloc_pages(0, 1024), Ok(0x8000 + 4096));
    assert_eq!(a.total_pages(), 0);
}

#[test]
fn dealloc_pages_is_unsupported() {
    let mut a = arena();
    a.alloc_bytes(100, 8).unwrap();
    let p = a.alloc_pages(1, 1024).unwrap();
    assert_eq!(a.dealloc_pages(p, 1), Err(AllocError::Unsupported));
    assert_eq!(a.used_bytes(), 100);
    assert_eq!(a.total_pages(), 1);
    assert_eq!(a.available_bytes(), 4096 - 1024 - 100);
}

#[test]
fn add_memory_is_unsupported() {
    let mut a = arena();
    assert_eq!(a.add_memory(0x20000, 4096), Err(AllocError::Unsupported));
    assert_eq!(a.available_bytes(), 4096);
}

#[test]
fn release_all_then_refit() {
    let mut a = arena();
    let x = a.alloc_bytes(2000, 8).unwrap();
    let y = a.alloc_bytes(2000, 8).unwrap();
    assert_eq!(a.alloc_bytes(2000, 8), Err(AllocError::NoMemory));
    a.dealloc(y, 2000, 8);
    a.dealloc(x, 2000, 8);
    assert_eq!(a.alloc_bytes(2000, 8), Ok(0x8000));
}

#[test]
fn init_again_forgets_everything() {
    let mut a = arena();
    a.alloc_bytes(10, 1).unwrap();
    a.alloc_pages(1, 1024).unwrap();
    a.init(0x10000, 8192);
    assert_eq!(a.used_bytes(), 0);
    assert_eq!(a.total_pages(), 0);
    assert_eq!(a.available_pages(), 8);
    assert_eq!(a.alloc_bytes(1, 1), Ok(0x10000));
}

#[test]
fn available_pages_counts_whole_pages_in_gap() {
    let mut a = arena();
    a.alloc_bytes(1, 1).unwrap();
    assert_eq!(a.available_pages(), 3);
}
