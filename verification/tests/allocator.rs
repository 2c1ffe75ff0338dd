//! End-to-end scenarios for the page-frame allocator on the reference
//! configuration: a 1 MiB heap at 0x8000_0000, so 256 frames, a 256-byte
//! descriptor table, and the first usable frame at 0x8000_1000.

use page_alloc::page::{align_val, Heap, Page, PageFault, PAGE_SIZE, TAKEN, TAKEN_LAST};

const HEAP_START: usize = 0x8000_0000;
const HEAP_SIZE: usize = 0x10_0000;
const ALLOC_START: usize = 0x8000_1000;
const NUM_PAGES: usize = 256;

fn fresh_heap() -> Heap {
    Heap::init(HEAP_START, HEAP_SIZE)
}

#[test]
fn init_layout() {
    let h = fresh_heap();
    assert_eq!(h.heap_start(), HEAP_START);
    assert_eq!(h.heap_size(), HEAP_SIZE);
    assert_eq!(h.num_pages(), NUM_PAGES);
    assert_eq!(h.alloc_start(), ALLOC_START);
    for i in 0..NUM_PAGES {
        assert_eq!(h.descriptor(i), 0);
    }
    assert_eq!(h.taken_count(), 0);
}

#[test]
fn alloc_first_page() {
    let mut h = fresh_heap();
    let p = h.alloc_pages(1);
    assert_eq!(p, 0x8000_1000);
    assert_eq!(h.descriptor(0), TAKEN_LAST);
    assert_eq!(h.descriptor(1), 0);
}

#[test]
fn two_allocations() {
    let mut h = fresh_heap();
    let a = h.alloc_pages(3);
    let b = h.alloc_pages(2);
    assert_eq!(a, 0x8000_1000);
    assert_eq!(b, 0x8000_4000);
    assert_eq!(h.descriptor(0), TAKEN);
    assert_eq!(h.descriptor(1), TAKEN);
    assert_eq!(h.descriptor(2), TAKEN_LAST);
    assert_eq!(h.descriptor(3), TAKEN);
    assert_eq!(h.descriptor(4), TAKEN_LAST);
}

#[test]
fn free_and_reuse() {
    let mut h = fresh_heap();
    let a = h.alloc_pages(3);
    let b = h.alloc_pages(2);
    assert_eq!(a, 0x8000_1000);
    assert_eq!(b, 0x8000_4000);
    assert_eq!(h.dealloc(a), Ok(()));
    let c = h.alloc_pages(2);
    assert_eq!(c, 0x8000_1000);
    assert_eq!(h.descriptor(0), TAKEN);
    assert_eq!(h.descriptor(1), TAKEN_LAST);
    assert_eq!(h.descriptor(2), 0);
    assert_eq!(h.descriptor(3), TAKEN);
    assert_eq!(h.descriptor(4), TAKEN_LAST);
}

#[test]
fn alignment_of_every_allocation() {
    let mut h = fresh_heap();
    let sizes = [1usize, 2, 3, 7, 16];
    for &n in sizes.iter() {
        let p = h.alloc_pages(n);
        assert!(p != 0);
        assert_eq!(p % PAGE_SIZE, 0);
        assert!(p >= ALLOC_START);
    }
}

#[test]
fn live_allocations_are_disjoint() {
    let mut h = fresh_heap();
    let a = h.alloc_pages(4);
    let b = h.alloc_pages(3);
    let c = h.alloc_pages(5);
    assert!(a != 0 && b != 0 && c != 0);
    // Each interval ends before the next begins.
    assert!(a + 4 * PAGE_SIZE <= b);
    assert!(b + 3 * PAGE_SIZE <= c);
    assert!(c + 5 * PAGE_SIZE <= ALLOC_START + NUM_PAGES * PAGE_SIZE);
}

#[test]
fn no_last_without_taken_after_operations() {
    let mut h = fresh_heap();
    let a = h.alloc_pages(2);
    let b = h.alloc_pages(1);
    let c = h.alloc_pages(4);
    assert_eq!(h.dealloc(b), Ok(()));
    let d = h.alloc_pages(3);
    assert_eq!(h.dealloc(a), Ok(()));
    assert!(c != 0 && d != 0);
    for i in 0..NUM_PAGES {
        let f = h.descriptor(i);
        // Only the three defined flag values ever appear; in particular
        // never LAST alone.
        assert!(f == 0 || f == TAKEN || f == TAKEN_LAST);
    }
}

#[test]
fn alloc_dealloc_round_trip() {
    let mut h = fresh_heap();
    let p = h.alloc_pages(5);
    assert_eq!(p, ALLOC_START);
    assert_eq!(h.dealloc(p), Ok(()));
    for i in 0..NUM_PAGES {
        assert_eq!(h.descriptor(i), 0);
    }
}

#[test]
fn adjacent_frees_coalesce() {
    let mut h = fresh_heap();
    let a = h.alloc_pages(3);
    let b = h.alloc_pages(2);
    let guard = h.alloc_pages(1);
    assert_eq!(a, 0x8000_1000);
    assert_eq!(b, 0x8000_4000);
    assert_eq!(guard, 0x8000_6000);
    assert_eq!(h.dealloc(a), Ok(()));
    assert_eq!(h.dealloc(b), Ok(()));
    // The two adjacent freed runs form one five-frame window again.
    let big = h.alloc_pages(5);
    assert_eq!(big, a);
}

#[test]
fn zalloc_zeroes_the_frames() {
    let mut h = fresh_heap();
    let p = h.zalloc(2);
    assert_eq!(p, ALLOC_START);
    for off in 0..(2 * PAGE_SIZE) {
        assert_eq!(h.read_byte(p + off), 0);
    }
}

#[test]
fn zalloc_zeroes_previously_dirty_frames() {
    let mut h = fresh_heap();
    let p = h.alloc_pages(2);
    assert_eq!(p, ALLOC_START);
    for off in 0..(2 * PAGE_SIZE) {
        h.write_byte(p + off, 0xAB);
    }
    assert_eq!(h.dealloc(p), Ok(()));
    let q = h.zalloc(2);
    assert_eq!(q, p);
    for off in 0..(2 * PAGE_SIZE) {
        assert_eq!(h.read_byte(q + off), 0);
    }
}

#[test]
fn double_free_is_trapped() {
    let mut h = fresh_heap();
    let p = h.alloc_pages(1);
    assert_eq!(p, ALLOC_START);
    assert_eq!(h.dealloc(p), Ok(()));
    assert_eq!(h.dealloc(p), Err(PageFault::DoubleFree));
}

#[test]
fn exhaustion_fills_all_usable_frames() {
    let mut h = fresh_heap();
    let mut count = 0usize;
    loop {
        let p = h.alloc_pages(1);
        if p == 0 {
            break;
        }
        count += 1;
        assert!(count <= NUM_PAGES);
    }
    // The scan's upper bound is exclusive, so 255 single-frame requests
    // succeed; the sum of live allocation lengths is the number of usable
    // frames, (HEAP_SIZE - descriptor bytes) / PAGE_SIZE.
    assert_eq!(count, 255);
    assert_eq!(count, (HEAP_SIZE - NUM_PAGES) / PAGE_SIZE);
    assert_eq!(h.taken_count(), count);
}

#[test]
fn dealloc_null_pointer_faults() {
    let mut h = fresh_heap();
    assert_eq!(h.dealloc(0), Err(PageFault::NullPointer));
}

#[test]
fn dealloc_out_of_range_faults() {
    let mut h = fresh_heap();
    assert_eq!(h.dealloc(HEAP_START), Err(PageFault::OutOfRange));
    assert_eq!(
        h.dealloc(ALLOC_START + NUM_PAGES * PAGE_SIZE),
        Err(PageFault::OutOfRange)
    );
}

#[test]
fn oversized_requests_return_null() {
    let mut h = fresh_heap();
    assert_eq!(h.alloc_pages(NUM_PAGES + 1), 0);
    // The search bound is exclusive: a request for all frames finds no
    // starting index either.
    assert_eq!(h.alloc_pages(NUM_PAGES), 0);
    // One frame fewer fits, starting at the bottom.
    assert_eq!(h.alloc_pages(NUM_PAGES - 1), ALLOC_START);
}

#[test]
fn first_fit_picks_earliest_window() {
    let mut h = fresh_heap();
    let a = h.alloc_pages(1);
    let b = h.alloc_pages(2);
    let c = h.alloc_pages(1);
    assert_eq!(h.dealloc(b), Ok(()));
    // A one-frame request lands in the first hole, not after `c`.
    let d = h.alloc_pages(1);
    assert_eq!(d, b);
    assert!(a != 0 && c != 0);
}

#[test]
fn allocation_runs_report() {
    let mut h = fresh_heap();
    let a = h.alloc_pages(3);
    let b = h.alloc_pages(2);
    assert_eq!(a, 0x8000_1000);
    assert_eq!(b, 0x8000_4000);
    let runs = h.allocation_runs();
    assert_eq!(runs.len(), 2);
    assert_eq!(runs[0], (0x8000_1000, 0x8000_3FFF, 3));
    assert_eq!(runs[1], (0x8000_4000, 0x8000_5FFF, 2));
    assert_eq!(h.taken_count(), 5);
    let empty = fresh_heap().allocation_runs();
    assert_eq!(empty.len(), 0);
}

#[test]
fn memory_bytes_round_trip() {
    let mut h = fresh_heap();
    let p = h.alloc_pages(1);
    h.write_byte(p, 0x5A);
    h.write_byte(p + PAGE_SIZE - 1, 0xC3);
    assert_eq!(h.read_byte(p), 0x5A);
    assert_eq!(h.read_byte(p + PAGE_SIZE - 1), 0xC3);
    assert_eq!(h.read_byte(p + 1), 0);
}

#[test]
fn page_descriptor_flags() {
    let mut pg = Page { flags: 0 };
    assert!(pg.is_free());
    assert!(!pg.is_taken());
    assert!(!pg.is_last());
    pg.mark_taken();
    assert!(pg.is_taken());
    assert!(!pg.is_last());
    pg.alloc_last();
    assert!(pg.is_taken());
    assert!(pg.is_last());
    pg.clear();
    assert!(pg.is_free());
    assert!(!pg.is_last());
}

#[test]
fn align_val_rounds_up() {
    assert_eq!(align_val(0x8000_0100, 12), 0x8000_1000);
    assert_eq!(align_val(0x8000_1000, 12), 0x8000_1000);
    assert_eq!(align_val(0, 12), 0);
    assert_eq!(align_val(1, 12), 0x1000);
    assert_eq!(align_val(1, 3), 8);
    assert_eq!(align_val(9, 3), 16);
}
