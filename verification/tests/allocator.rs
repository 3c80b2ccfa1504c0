use bitmap_allocator::find_contiguous;
use bitmap_allocator::log2;
use bitmap_allocator::log2_naive;
use bitmap_allocator::BitAlloc;
use bitmap_allocator::BitAlloc16;
use bitmap_allocator::BitAlloc4K;
use bitmap_allocator::BitScan;

#[test]
fn log2_() {
    for x in 1..=0xffff {
        assert_eq!(log2(x), log2_naive(x), "log2 failed: {}", x);
    }
}

#[test]
fn bitalloc16() {
    let mut ba = BitAlloc16::default();
    assert_eq!(BitAlloc16::CAP, 16);
    ba.insert(0..16);
    for i in 0..16 {
        assert_eq!(ba.test(i), true);
    }
    ba.remove(8..14);
    assert_eq!(ba.allocate(), Some(15));
    assert_eq!(ba.allocate(), Some(14));
    assert_eq!(ba.allocate(), Some(7));
    ba.dealloc(14);
    ba.dealloc(15);
    ba.dealloc(7);

    for _ in 0..10 {
        assert!(ba.allocate().is_some());
    }
    assert!(!ba.any());
    assert!(ba.allocate().is_none());
}

#[test]
fn bitalloc4k() {
    let mut ba = BitAlloc4K::default();
    assert_eq!(BitAlloc4K::CAP, 4096);
    ba.insert(0..4096);
    for i in 0..4096 {
        assert_eq!(ba.test(i), true);
    }
    ba.remove(8..4094);
    for i in 0..4096 {
        assert_eq!(ba.test(i), i < 8 || i >= 4094);
    }
    assert_eq!(ba.allocate(), Some(4095));
    assert_eq!(ba.allocate(), Some(4094));
    assert_eq!(ba.allocate(), Some(7));
    ba.dealloc(4095);
    ba.dealloc(4094);
    ba.dealloc(7);

    for _ in 0..10 {
        assert!(ba.allocate().is_some());
    }
    assert!(ba.allocate().is_none());
}

#[test]
fn bitalloc_contiguous() {
    let mut ba0 = BitAlloc16::default();
    ba0.insert(0..BitAlloc16::CAP);
    ba0.remove(3..6);
    assert_eq!(ba0.next(0), Some(0));
    assert_eq!(ba0.alloc_contiguous(1, 1), Some(0));
    assert_eq!(find_contiguous(&ba0, BitAlloc4K::CAP, 2, 0), Some(1));

    let mut ba = BitAlloc4K::default();
    assert_eq!(BitAlloc4K::CAP, 4096);
    ba.insert(0..BitAlloc4K::CAP);
    ba.remove(3..6);
    assert_eq!(ba.next(0), Some(0));
    assert_eq!(ba.alloc_contiguous(1, 1), Some(0));
    assert_eq!(ba.next(0), Some(1));
    assert_eq!(ba.next(1), Some(1));
    assert_eq!(ba.next(2), Some(2));
    assert_eq!(find_contiguous(&ba, BitAlloc4K::CAP, 2, 0), Some(1));
    assert_eq!(ba.alloc_contiguous(2, 0), Some(1));
    assert_eq!(ba.alloc_contiguous(2, 3), Some(8));
    ba.remove(0..4096 - 64);
    assert_eq!(ba.alloc_contiguous(128, 7), None);
    assert_eq!(ba.alloc_contiguous(7, 3), Some(4096 - 64));
    ba.insert(321..323);
    assert_eq!(ba.alloc_contiguous(2, 1), Some(4096 - 64 + 8));
    assert_eq!(ba.alloc_contiguous(2, 0), Some(321));
    assert_eq!(ba.alloc_contiguous(64, 6), None);
    assert_eq!(ba.alloc_contiguous(32, 4), Some(4096 - 48));
    for i in 0..4096 - 64 + 7 {
        ba.dealloc(i);
    }
    for i in 4096 - 64 + 8..4096 - 64 + 10 {
        ba.dealloc(i);
    }
    for i in 4096 - 48..4096 - 16 {
        ba.dealloc(i);
    }
}
