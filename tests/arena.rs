use bumpup::align::{align_manual, align_std};
use bumpup::{foo, BumpDown, BumpUp, Layout};

fn layout(size: usize, align: usize) -> Layout {
    Layout::from_size_align(size, align).unwrap()
}

#[test]
fn bump_up() {
    let mut bump = BumpUp::<8>::with_capacity(100);
    let layout = Layout::new::<u8>();
    let ptr = bump.alloc_fast(layout).unwrap();
    assert_eq!(ptr % 8, 0);
}

#[test]
fn layout_rejects_bad_alignment() {
    assert!(Layout::from_size_align(8, 0).is_none());
    assert!(Layout::from_size_align(8, 3).is_none());
    assert!(Layout::from_size_align(8, 12).is_none());
    let l = Layout::from_size_align(8, 16).unwrap();
    assert_eq!(l.size(), 8);
    assert_eq!(l.align(), 16);
}

#[test]
fn layout_of_types() {
    assert_eq!(Layout::new::<u8>(), layout(1, 1));
    assert_eq!(Layout::new::<u64>(), layout(8, std::mem::align_of::<u64>()));
    assert_eq!(Layout::new::<[u16; 3]>(), layout(6, 2));
    assert_eq!(Layout::new::<()>(), layout(0, 1));
}

#[test]
fn layout_rejects_oversized() {
    let max = isize::MAX as usize;
    assert!(Layout::from_size_align(max, 1).is_some());
    assert!(Layout::from_size_align(max, 2).is_none());
    assert!(Layout::from_size_align(max - 7, 8).is_some());
    assert!(Layout::from_size_align(max - 6, 8).is_none());
}

#[test]
fn up_fast_pads_to_min_align() {
    let mut bump = BumpUp::<8>::with_capacity(100);
    let mut expected = 0;
    for _ in 0..12 {
        assert_eq!(bump.alloc_fast(layout(1, 1)), Some(expected));
        expected += 8;
    }
    // The cursor is at 96: four bytes remain, fewer than the eight a padded block takes.
    assert_eq!(bump.alloc_fast(layout(1, 1)), None);
}

#[test]
fn up_fast_rounds_large_alignment() {
    let mut bump = BumpUp::<8>::with_capacity(100);
    assert_eq!(bump.alloc_fast(layout(3, 1)), Some(0));
    assert_eq!(bump.alloc_fast(layout(4, 32)), Some(32));
    assert_eq!(bump.alloc_fast(layout(1, 8)), Some(40));
    assert_eq!(bump.alloc_fast(layout(1, 64)), Some(64));
    assert_eq!(bump.alloc_fast(layout(1, 64)), None);
}

#[test]
fn up_orig_rounds_each_request() {
    let mut bump = BumpUp::<8>::with_capacity(100);
    assert_eq!(bump.alloc_orig(layout(1, 1)), Some(0));
    assert_eq!(bump.alloc_orig(layout(1, 1)), Some(1));
    assert_eq!(bump.alloc_orig(layout(4, 4)), Some(4));
    assert_eq!(bump.alloc_orig(layout(2, 16)), Some(16));
    assert_eq!(bump.alloc_orig(layout(82, 1)), Some(18));
    assert_eq!(bump.alloc_orig(layout(1, 1)), None);
}

#[test]
fn up_boundary_is_exact() {
    let mut fast = BumpUp::<8>::with_capacity(96);
    assert_eq!(fast.alloc_fast(layout(97, 1)), None);
    assert_eq!(fast.alloc_fast(layout(95, 1)), Some(0));
    assert_eq!(fast.alloc_fast(layout(0, 1)), Some(96));
    assert_eq!(fast.alloc_fast(layout(1, 1)), None);

    let mut checked = BumpUp::<8>::with_capacity(100);
    assert_eq!(checked.alloc_orig(layout(101, 1)), None);
    assert_eq!(checked.alloc_orig(layout(99, 1)), Some(0));
    assert_eq!(checked.alloc_orig(layout(2, 1)), None);
    assert_eq!(checked.alloc_orig(layout(1, 1)), Some(99));
    assert_eq!(checked.alloc_orig(layout(1, 1)), None);
}

#[test]
fn up_orig_fails_on_address_overflow() {
    let start = usize::MAX - 15;
    let mut bump = BumpUp::<1>::from_region(start, 15);
    assert_eq!(bump.alloc_orig(layout(1, 1)), Some(start));
    assert_eq!(bump.alloc_orig(layout(1, 32)), None);
    assert_eq!(bump.alloc_orig(layout(14, 1)), Some(start + 1));
    assert_eq!(bump.alloc_orig(layout(1, 1)), None);
}

#[test]
fn whole_capacity_once() {
    let mut up = BumpUp::<8>::with_capacity(100);
    assert_eq!(up.alloc_orig(layout(100, 1)), Some(0));
    assert_eq!(up.alloc_orig(layout(100, 1)), None);

    let mut up_fast = BumpUp::<8>::with_capacity(64);
    assert_eq!(up_fast.alloc_fast(layout(64, 1)), Some(0));
    assert_eq!(up_fast.alloc_fast(layout(64, 1)), None);

    let mut down = BumpDown::<8>::with_capacity(100);
    assert_eq!(down.alloc_orig(layout(100, 1)), Some(0));
    assert_eq!(down.alloc_orig(layout(100, 1)), None);

    let mut down_fast = BumpDown::<8>::with_capacity(64);
    assert_eq!(down_fast.alloc_fast(layout(64, 1)), Some(0));
    assert_eq!(down_fast.alloc_fast(layout(64, 1)), None);
}

#[test]
fn down_whole_region_aligned_start() {
    let mut bump = BumpDown::<8>::with_capacity(16);
    assert_eq!(bump.alloc_fast(layout(16, 16)), Some(0));
    assert_eq!(bump.alloc_fast(layout(1, 1)), None);
}

#[test]
fn down_whole_region_unaligned_start() {
    let mut bump = BumpDown::<8>::from_region(8, 16);
    assert_eq!(bump.alloc_fast(layout(16, 16)), None);
    assert_eq!(bump.alloc_orig(layout(16, 16)), None);
    assert_eq!(bump.alloc_fast(layout(16, 8)), Some(8));
}

#[test]
fn down_fast_pads_and_rounds() {
    let mut bump = BumpDown::<8>::with_capacity(64);
    assert_eq!(bump.alloc_fast(layout(1, 1)), Some(56));
    assert_eq!(bump.alloc_fast(layout(9, 4)), Some(40));
    assert_eq!(bump.alloc_fast(layout(4, 32)), Some(32));
    assert_eq!(bump.alloc_fast(layout(8, 16)), Some(16));
    assert_eq!(bump.alloc_fast(layout(17, 1)), None);
    assert_eq!(bump.alloc_fast(layout(16, 1)), Some(0));
    assert_eq!(bump.alloc_fast(layout(0, 1)), Some(0));
}

#[test]
fn down_fast_aligns_with_unaligned_capacity() {
    let mut small = BumpDown::<8>::with_capacity(10);
    assert_eq!(small.alloc_fast(layout(1, 8)), Some(0));
    assert_eq!(small.alloc_fast(layout(1, 1)), None);

    let mut bump = BumpDown::<8>::with_capacity(100);
    assert_eq!(bump.alloc_fast(layout(8, 8)), Some(88));
    assert_eq!(bump.alloc_fast(layout(3, 1)), Some(80));
    assert_eq!(bump.alloc_fast(layout(1, 32)), Some(64));
    assert_eq!(bump.alloc_fast(layout(64, 1)), Some(0));
    assert_eq!(bump.alloc_fast(layout(0, 1)), Some(0));
    assert_eq!(bump.alloc_fast(layout(1, 1)), None);
}

#[test]
fn down_fast_realigns_after_checked_path() {
    let mut bump = BumpDown::<8>::with_capacity(64);
    assert_eq!(bump.alloc_orig(layout(1, 1)), Some(63));
    assert_eq!(bump.alloc_fast(layout(1, 1)), Some(48));
    assert_eq!(bump.alloc_orig(layout(3, 1)), Some(45));
    assert_eq!(bump.alloc_fast(layout(4, 4)), Some(32));
}

#[test]
fn down_orig_rounds_each_request() {
    let mut bump = BumpDown::<8>::with_capacity(64);
    assert_eq!(bump.alloc_orig(layout(1, 1)), Some(63));
    assert_eq!(bump.alloc_orig(layout(3, 4)), Some(60));
    assert_eq!(bump.alloc_orig(layout(5, 16)), Some(48));
    assert_eq!(bump.alloc_orig(layout(49, 1)), None);
    assert_eq!(bump.alloc_orig(layout(48, 1)), Some(0));
}

#[test]
fn down_orig_fails_below_start() {
    let mut bump = BumpDown::<1>::from_region(100, 10);
    assert_eq!(bump.alloc_orig(layout(4, 16)), None);
    assert_eq!(bump.alloc_orig(layout(200, 1)), None);
    assert_eq!(bump.alloc_orig(layout(4, 4)), Some(104));
    assert_eq!(bump.alloc_orig(layout(4, 1)), Some(100));
}

#[test]
fn clear_replays_addresses() {
    let requests = [(1, 1), (7, 4), (16, 16), (3, 2), (40, 8), (1, 64), (9, 1)];
    let mut up = BumpUp::<8>::with_capacity(128);
    let mut down = BumpDown::<8>::with_capacity(128);
    let first: Vec<_> = requests
        .iter()
        .map(|&(s, a)| (up.alloc_fast(layout(s, a)), up.alloc_orig(layout(s, a)), down.alloc_fast(layout(s, a)), down.alloc_orig(layout(s, a))))
        .collect();
    up.clear();
    down.clear();
    let second: Vec<_> = requests
        .iter()
        .map(|&(s, a)| (up.alloc_fast(layout(s, a)), up.alloc_orig(layout(s, a)), down.alloc_fast(layout(s, a)), down.alloc_orig(layout(s, a))))
        .collect();
    assert_eq!(first, second);
    assert!(first.iter().any(|r| r.0.is_none()));
}

fn run_up_fast(cap: usize, requests: &[(usize, usize)]) -> Vec<Option<usize>> {
    let mut bump = BumpUp::<8>::with_capacity(cap);
    requests.iter().map(|&(s, a)| bump.alloc_fast(layout(s, a))).collect()
}

fn run_up_orig(cap: usize, requests: &[(usize, usize)]) -> Vec<Option<usize>> {
    let mut bump = BumpUp::<8>::with_capacity(cap);
    requests.iter().map(|&(s, a)| bump.alloc_orig(layout(s, a))).collect()
}

fn run_down_fast(cap: usize, requests: &[(usize, usize)]) -> Vec<Option<usize>> {
    let mut bump = BumpDown::<8>::with_capacity(cap);
    requests.iter().map(|&(s, a)| bump.alloc_fast(layout(s, a))).collect()
}

fn run_down_orig(cap: usize, requests: &[(usize, usize)]) -> Vec<Option<usize>> {
    let mut bump = BumpDown::<8>::with_capacity(cap);
    requests.iter().map(|&(s, a)| bump.alloc_orig(layout(s, a))).collect()
}

#[test]
fn fast_and_checked_paths_agree() {
    let requests = [(8, 1), (16, 8), (0, 2), (24, 4), (8, 8), (32, 1), (8, 8)];
    let up = run_up_fast(80, &requests);
    assert_eq!(up, run_up_orig(80, &requests));
    assert_eq!(up, vec![Some(0), Some(8), Some(24), Some(24), Some(48), None, Some(56)]);
    let down = run_down_fast(80, &requests);
    assert_eq!(down, run_down_orig(80, &requests));
    assert_eq!(down, vec![Some(72), Some(56), Some(56), Some(32), Some(24), None, Some(16)]);
}

#[test]
fn fast_and_checked_paths_differ_on_unpadded_sizes() {
    let requests = [(1, 1), (1, 1)];
    assert_eq!(run_up_fast(64, &requests), vec![Some(0), Some(8)]);
    assert_eq!(run_up_orig(64, &requests), vec![Some(0), Some(1)]);
    assert_eq!(run_down_fast(64, &requests), vec![Some(56), Some(48)]);
    assert_eq!(run_down_orig(64, &requests), vec![Some(63), Some(62)]);
}

#[test]
fn blocks_are_aligned_inside_and_disjoint() {
    let requests = [(3, 1), (5, 16), (8, 8), (1, 32), (12, 4), (2, 2)];
    let total: usize = 8 + 8 + 8 + 24 + 16 + 8;
    for (name, cap, results) in [
        ("up", total, run_up_fast(total, &requests)),
        ("down", total, run_down_fast(total, &requests)),
        ("down, unaligned end", total + 5, run_down_fast(total + 5, &requests)),
    ] {
        let mut blocks = Vec::new();
        for (r, &(s, a)) in results.iter().zip(requests.iter()) {
            let addr = r.unwrap_or_else(|| panic!("{name}: request ({s}, {a}) failed"));
            assert_eq!(addr % a, 0);
            assert_eq!(addr % 8, 0);
            assert!(addr + s <= cap);
            blocks.push((addr, addr + s));
        }
        for i in 0..blocks.len() {
            for j in i + 1..blocks.len() {
                assert!(blocks[i].1 <= blocks[j].0 || blocks[j].1 <= blocks[i].0);
            }
        }
    }
}

#[test]
fn clear_resets_cursor() {
    let mut up = BumpUp::<8>::from_region(64, 16);
    assert_eq!(up.alloc_fast(layout(16, 1)), Some(64));
    assert_eq!(up.alloc_fast(layout(1, 1)), None);
    up.clear();
    assert_eq!(up.alloc_fast(layout(1, 1)), Some(64));

    let mut down = BumpDown::<8>::from_region(64, 16);
    assert_eq!(down.alloc_fast(layout(16, 1)), Some(64));
    assert_eq!(down.alloc_fast(layout(1, 1)), None);
    down.clear();
    assert_eq!(down.alloc_fast(layout(1, 1)), Some(72));
}

#[test]
fn align_offsets_to_eight() {
    for (addr, expected) in [(0, 0), (1, 7), (7, 1), (8, 0), (13, 3), (usize::MAX, 1)] {
        assert_eq!(align_std(addr), expected);
        assert_eq!(align_manual(addr), expected);
    }
}

#[test]
fn slice_alignment() {
    let xs = [1usize, 2, 3];
    assert_eq!(foo(&xs), std::mem::align_of::<usize>());
}
