use bitmap_allocator::find_contiguous;
use bitmap_allocator::get_bit;
use bitmap_allocator::get_bits;
use bitmap_allocator::set_bit;
use bitmap_allocator::set_bits;
use bitmap_allocator::log2;
use bitmap_allocator::BitAlloc;
use bitmap_allocator::BitAlloc16;
use bitmap_allocator::BitAlloc256;
use bitmap_allocator::BitAlloc4K;
use bitmap_allocator::BitScan;

#[test]
fn log2_exact_values() {
    assert_eq!(log2(1), 0);
    assert_eq!(log2(2), 1);
    assert_eq!(log2(0b1010), 3);
    assert_eq!(log2(0x8000), 15);
    assert_eq!(log2(0xffff), 15);
}

#[test]
fn summary_word_matches_children() {
    let mut ba = BitAlloc256::default();
    ba.insert(0..100);
    ba.remove(16..32);
    ba.dealloc(200);
    let _ = ba.allocate();
    for c in 0..16 {
        let bit = (ba.bitset >> c) & 1 == 1;
        assert_eq!(bit, ba.sub[c].any(), "summary bit {} disagrees", c);
    }
}

#[test]
fn insert_remove_round_trip() {
    let mut ba = BitAlloc256::default();
    ba.insert(37..38);
    assert!(ba.test(37));
    ba.remove(37..38);
    assert!(!ba.test(37));
}

#[test]
fn alloc_dealloc_inverse() {
    let mut ba = BitAlloc256::default();
    ba.insert(10..20);
    let k = ba.allocate().unwrap();
    assert!(!ba.test(k));
    ba.dealloc(k);
    assert!(ba.test(k));
    for i in 0..256 {
        assert_eq!(ba.test(i), 10 <= i && i < 20);
    }
}

#[test]
fn exhaustion_distinct_cover() {
    let mut ba = BitAlloc16::default();
    ba.insert(0..16);
    let mut seen = [false; 16];
    for _ in 0..16 {
        let k = ba.allocate().unwrap();
        assert!(k < 16);
        assert!(!seen[k], "key {} handed out twice", k);
        seen[k] = true;
    }
    assert!(seen.iter().all(|&s| s));
    assert!(!ba.any());
    assert_eq!(ba.allocate(), None);
}

#[test]
fn contiguous_alignment() {
    let mut ba = BitAlloc4K::default();
    ba.insert(100..400);
    let base = ba.alloc_contiguous(40, 5).unwrap();
    assert_eq!(base % 32, 0);
    for i in base..base + 40 {
        assert!(!ba.test(i));
    }
    ba.insert(base..base + 40);
    for i in 100..400 {
        assert!(ba.test(i));
    }
}

#[test]
fn empty_and_full_ranges() {
    let mut ba = BitAlloc16::default();
    ba.insert(0..0);
    assert!(!ba.any());
    ba.insert(5..5);
    assert!(!ba.any());
    ba.insert(0..16);
    for i in 0..16 {
        assert!(ba.test(i));
    }
    assert_eq!(ba.alloc_contiguous(16, 0), Some(0));
    assert!(!ba.any());
}

#[test]
fn absence_results() {
    let mut ba = BitAlloc256::default();
    assert_eq!(ba.allocate(), None);
    assert_eq!(ba.next(0), None);
    assert_eq!(ba.alloc_contiguous(1, 0), None);
    ba.insert(0..8);
    assert_eq!(ba.next(8), None);
    assert_eq!(ba.next(5000), None);
    assert_eq!(ba.alloc_contiguous(9, 0), None);
    assert_eq!(ba.alloc_contiguous(1, 9), None);
    assert_eq!(find_contiguous(&ba, 4, 8, 0), None);
}

#[test]
fn next_skips_allocated_stretches() {
    let mut ba = BitAlloc4K::default();
    ba.insert(0..4096);
    ba.remove(1..3000);
    assert_eq!(ba.next(0), Some(0));
    assert_eq!(ba.next(1), Some(3000));
    assert_eq!(ba.next(3000), Some(3000));
    assert_eq!(ba.next(4095), Some(4095));
    assert_eq!(ba.next(4096), None);
}

#[test]
fn bit_word_primitives() {
    assert_eq!(get_bit(0b1010, 1), true);
    assert_eq!(get_bit(0b1010, 2), false);
    assert_eq!(set_bit(0, 3, true), 0b1000);
    assert_eq!(set_bit(0b1111, 0, false), 0b1110);
    assert_eq!(get_bits(0xabcd, 4, 12), 0xbc);
    assert_eq!(get_bits(0xffff, 3, 6), 0b111);
    assert_eq!(set_bits(0x0000, 4, 12, 0xbc), 0x0bc0);
    assert_eq!(set_bits(0xffff, 4, 12, 0), 0xf00f);
}
