use rbasefind::partition::power_of_two;
use rbasefind::Interval;
use rbasefind::InvalidPartition;

#[test]
#[should_panic]
fn find_matches_invalid_interval() {
    let _ = Interval::get_range(1, 1, 0x1000).unwrap();
}

#[test]
fn find_matches_single_cpu_interval_0() {
    let interval = Interval::get_range(0, 1, 0x1000).unwrap();
    assert_eq!(interval.start_addr, u32::min_value());
    assert_eq!(interval.end_addr, u32::max_value());
}

#[test]
fn find_matches_double_cpu_interval_0() {
    let interval = Interval::get_range(0, 2, 0x1000).unwrap();
    assert_eq!(interval.start_addr, u32::min_value());
    assert_eq!(interval.end_addr, 0x80000000);
}

#[test]
fn find_matches_double_cpu_interval_1() {
    let interval = Interval::get_range(1, 2, 0x1000).unwrap();
    assert_eq!(interval.start_addr, 0x80000000);
    assert_eq!(interval.end_addr, u32::max_value());
}

#[test]
fn find_matches_triple_cpu_interval_0() {
    let interval = Interval::get_range(0, 3, 0x1000).unwrap();
    assert_eq!(interval.start_addr, u32::min_value());
    assert_eq!(interval.end_addr, 0x55555000);
}

#[test]
fn find_matches_triple_cpu_interval_1() {
    let interval = Interval::get_range(1, 3, 0x1000).unwrap();
    assert_eq!(interval.start_addr, 0x55555000);
    assert_eq!(interval.end_addr, 0xAAAAA000);
}

#[test]
fn find_matches_triple_cpu_interval_2() {
    let interval = Interval::get_range(2, 3, 0x1000).unwrap();
    assert_eq!(interval.start_addr, 0xAAAAA000);
    assert_eq!(interval.end_addr, u32::max_value());
}

#[test]
fn index_out_of_range_is_refused() {
    assert_eq!(Interval::get_range(1, 1, 0x1000), Err(InvalidPartition::Index));
    assert_eq!(Interval::get_range(5, 3, 0x1000), Err(InvalidPartition::Index));
    assert_eq!(Interval::get_range(0, 0, 0x1000), Err(InvalidPartition::Index));
}

#[test]
fn index_is_tested_before_stride() {
    assert_eq!(Interval::get_range(4, 4, 3), Err(InvalidPartition::Index));
}

#[test]
fn stride_must_be_a_power_of_two() {
    assert_eq!(Interval::get_range(0, 1, 0), Err(InvalidPartition::Stride));
    assert_eq!(Interval::get_range(0, 1, 3), Err(InvalidPartition::Stride));
    assert_eq!(Interval::get_range(0, 1, 0x1001), Err(InvalidPartition::Stride));
    assert_eq!(Interval::get_range(0, 1, 0xFFFF_FFFF), Err(InvalidPartition::Stride));
    assert!(Interval::get_range(0, 1, 1).is_ok());
    assert!(Interval::get_range(0, 1, 0x8000_0000).is_ok());
}

#[test]
fn power_of_two_agrees_with_bit_count() {
    for shift in 0..32 {
        assert!(power_of_two(1u32 << shift));
    }
    for n in [0u32, 3, 5, 6, 7, 9, 12, 0x1001, 0xC000_0000, u32::MAX] {
        assert_eq!(power_of_two(n), n.count_ones() == 1);
    }
}

#[test]
fn intervals_cover_the_address_space() {
    for workers in [1usize, 2, 3, 4, 5, 7, 8, 16, 100, 1000] {
        for stride in [1u32, 2, 0x10, 0x1000, 0x10_0000, 0x8000_0000] {
            let first = Interval::get_range(0, workers, stride).unwrap();
            assert_eq!(first.start_addr, 0);
            let last = Interval::get_range(workers - 1, workers, stride).unwrap();
            assert_eq!(last.end_addr, u32::MAX);
            for index in 0..workers {
                let here = Interval::get_range(index, workers, stride).unwrap();
                assert!(here.start_addr <= here.end_addr);
                if index + 1 < workers {
                    let next = Interval::get_range(index + 1, workers, stride).unwrap();
                    assert!(next.start_addr <= here.end_addr);
                }
            }
        }
    }
}

#[test]
fn interior_bounds_are_aligned() {
    let a = Interval::get_range(1, 7, 0x1000).unwrap();
    assert_eq!(a.start_addr, 0x2492_4000);
    assert_eq!(a.end_addr, 0x4924_9000);
    let b = Interval::get_range(0, 3, 1).unwrap();
    assert_eq!(b.end_addr, 0x5555_5555);
}

#[test]
fn start_of_a_share_beyond_the_top_is_kept_to_32_bits() {
    let interval = Interval::get_range(100000, 100001, 0x1000).unwrap();
    assert_eq!(interval.start_addr, 0x7000);
    assert_eq!(interval.end_addr, u32::MAX);
}

#[test]
fn steps_of_an_interval() {
    let whole = Interval::get_range(0, 1, 0x1000).unwrap();
    assert_eq!(whole.steps(0x1000), 0xF_FFFF);
    assert_eq!(whole.steps(1), u32::MAX);
    let part = Interval::get_range(1, 3, 0x1000).unwrap();
    assert_eq!(part.steps(0x1000), 0x55555);
    let point = Interval { start_addr: 7, end_addr: 7 };
    assert_eq!(point.steps(4), 0);
}

#[test]
fn seams_meet_below_the_top() {
    for workers in [2usize, 3, 5, 64] {
        for index in 0..workers - 1 {
            let here = Interval::get_range(index, workers, 0x100).unwrap();
            let next = Interval::get_range(index + 1, workers, 0x100).unwrap();
            assert_eq!(here.end_addr, next.start_addr);
            assert_eq!(here.end_addr % 0x100, 0);
        }
    }
}
