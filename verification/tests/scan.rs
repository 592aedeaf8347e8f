use fnv::FnvHashSet;
use rbasefind::extract::get_pointers;
use rbasefind::extract::get_strings;
use rbasefind::rank::merge_results;
use rbasefind::rank::rank_results;
use rbasefind::rank::top_matches;
use rbasefind::scan::find_matches;
use rbasefind::scan::scan_interval_of;
use rbasefind::scan::scan_step;
use rbasefind::scan::scan_worker;
use rbasefind::scan::score_at;
use rbasefind::Config;
use rbasefind::InvalidPartition;

fn config(threads: usize, offset: u32, max_matches: usize) -> Config {
    Config {
        big_endian: false,
        filename: String::new(),
        min_str_len: 10,
        max_matches,
        offset,
        threads,
    }
}

fn set_of(values: &[u32]) -> FnvHashSet<u32> {
    let mut set = FnvHashSet::default();
    for v in values {
        set.insert(*v);
    }
    set
}

#[test]
fn score_counts_colliding_strings() {
    let strings = vec![0x10u32, 0x20, 0x30];
    let pointers = set_of(&[0x1010, 0x1030, 0x2020, 0x5000]);
    assert_eq!(score_at(&strings, &pointers, 0x1000), 2);
    assert_eq!(score_at(&strings, &pointers, 0x2000), 1);
    assert_eq!(score_at(&strings, &pointers, 0x3000), 0);
    assert_eq!(score_at(&Vec::new(), &pointers, 0x1000), 0);
}

#[test]
fn score_leaves_out_sums_beyond_32_bits() {
    let strings = vec![0x10u32, 0x20];
    let pointers = set_of(&[0x0F, 0xFFFF_FFFF, 0x1F]);
    assert_eq!(score_at(&strings, &pointers, 0xFFFF_FFEF), 1);
    assert_eq!(score_at(&strings, &pointers, 0xFFFF_FFFF), 0);
}

#[test]
fn scan_reports_each_candidate_with_a_score() {
    let strings = vec![0x10u32, 0x20, 0x30];
    let pointers = set_of(&[0x1010, 0x1030, 0x2020, 0x5000]);
    let found = scan_interval_of(&strings, &pointers, 0, 0x4000, 0x1000);
    assert_eq!(found, vec![(2, 0x1000), (1, 0x2000)]);
    let found = scan_interval_of(&strings, &pointers, 0x2000, 0x2000, 0x1000);
    assert_eq!(found, vec![(1, 0x2000)]);
    let found = scan_interval_of(&strings, &pointers, 0x2800, 0x4000, 0x1000);
    assert_eq!(found, Vec::<(usize, u32)>::new());
}

#[test]
fn scan_stops_at_the_top_of_the_address_space() {
    let strings = vec![0u32];
    let pointers = set_of(&[0xF000_0000, 0xC000_0000]);
    let found = scan_interval_of(&strings, &pointers, 0x8000_0000, 0xFFFF_FFFF, 0x1000_0000);
    assert_eq!(found, vec![(1, 0xC000_0000), (1, 0xF000_0000)]);
}

#[test]
fn find_matches_scans_its_own_interval() {
    let strings = set_of(&[0x10, 0x20]);
    let pointers = set_of(&[0x1000_0010, 0x9000_0010, 0x9000_0020]);
    let cfg = config(2, 0x1000_0000, 10);
    assert_eq!(find_matches(&cfg, &strings, &pointers, 0), Ok(vec![(1, 0x1000_0000)]));
    assert_eq!(find_matches(&cfg, &strings, &pointers, 1), Ok(vec![(2, 0x9000_0000)]));
    let items = vec![0x20u32, 0x10];
    assert_eq!(scan_worker(&cfg, &items, &pointers, 0), Ok(vec![(1, 0x1000_0000)]));
    assert_eq!(scan_worker(&cfg, &items, &pointers, 1), Ok(vec![(2, 0x9000_0000)]));
    assert_eq!(scan_worker(&cfg, &items, &pointers, 2), Err(InvalidPartition::Index));
}

#[test]
fn find_matches_refuses_what_the_partition_refuses() {
    let strings = set_of(&[0x10]);
    let pointers = set_of(&[0x1010]);
    assert_eq!(
        find_matches(&config(2, 0x1000, 10), &strings, &pointers, 2),
        Err(InvalidPartition::Index)
    );
    assert_eq!(
        find_matches(&config(2, 0x1800, 10), &strings, &pointers, 0),
        Err(InvalidPartition::Stride)
    );
}

#[test]
fn merge_keeps_the_order_of_the_workers() {
    let parts = vec![vec![(1usize, 5u32), (2, 6)], vec![], vec![(3, 7)]];
    assert_eq!(merge_results(&parts), vec![(1, 5), (2, 6), (3, 7)]);
    assert_eq!(merge_results(&Vec::new()), Vec::<(usize, u32)>::new());
}

#[test]
fn ranking_keeps_the_highest_scores() {
    let mut all = Vec::new();
    for i in 0..1000u32 {
        all.push((((i * 7919) % 1009) as usize, i));
    }
    let top = top_matches(all.clone(), 10);
    let mut expected = all.clone();
    expected.sort();
    expected.reverse();
    expected.truncate(10);
    assert_eq!(top, expected);
}

#[test]
fn ranking_returns_all_where_there_are_few() {
    let all = vec![(1usize, 0x3000u32), (5, 0x1000), (3, 0x2000)];
    assert_eq!(top_matches(all.clone(), 10), vec![(5, 0x1000), (3, 0x2000), (1, 0x3000)]);
    assert_eq!(top_matches(all.clone(), 3), vec![(5, 0x1000), (3, 0x2000), (1, 0x3000)]);
    assert_eq!(top_matches(all.clone(), 1), vec![(5, 0x1000)]);
    assert_eq!(top_matches(all, 0), Vec::<(usize, u32)>::new());
    assert_eq!(top_matches(Vec::new(), 4), Vec::<(usize, u32)>::new());
}

#[test]
fn equal_scores_rank_by_address() {
    let all = vec![(2usize, 0x1000u32), (2, 0x3000), (2, 0x2000), (2, 0x3000)];
    assert_eq!(
        top_matches(all, 3),
        vec![(2, 0x3000), (2, 0x3000), (2, 0x2000)]
    );
}

fn image_loaded_at(base: u32, texts: &[&str]) -> Vec<u8> {
    let mut image = vec![0u8; 16];
    let mut offsets = Vec::new();
    for text in texts {
        offsets.push(image.len() as u32);
        image.extend_from_slice(text.as_bytes());
        image.push(0);
    }
    while image.len() % 4 != 0 {
        image.push(0);
    }
    for offset in offsets {
        image.extend_from_slice(&(base + offset).to_le_bytes());
    }
    image
}

fn ranked(cfg: &Config, image: &[u8]) -> Vec<(usize, u32)> {
    let strings = get_strings(cfg, image).unwrap();
    let pointers = get_pointers(cfg, image);
    let mut parts = Vec::new();
    for worker in 0..cfg.threads {
        parts.push(find_matches(cfg, &strings, &pointers, worker).unwrap());
    }
    rank_results(&parts, cfg.max_matches)
}

#[test]
fn known_base_address_comes_out_on_top() {
    let texts = ["first string here", "the second string", "and a third one!!"];
    let base = 0x0804_0000u32;
    let image = image_loaded_at(base, &texts);
    let top = ranked(&config(3, 0x1_0000, 5), &image);
    assert!(!top.is_empty());
    assert!(top.len() <= 5);
    assert_eq!(top[0], (3, base));
}

#[test]
fn two_runs_give_the_same_list() {
    let texts = ["first string here", "the second string"];
    let image = image_loaded_at(0x4000_0000, &texts);
    let cfg = config(4, 0x10_0000, 3);
    let one = ranked(&cfg, &image);
    let two = ranked(&cfg, &image);
    assert_eq!(one, two);
    assert_eq!(one[0], (2, 0x4000_0000));
}

#[test]
fn ranking_does_not_depend_on_the_order_of_the_workers() {
    let a = vec![(3usize, 0x1000u32), (1, 0x2000)];
    let b = vec![(3usize, 0x9000u32), (7, 0x8000)];
    let c = vec![(2usize, 0x5000u32)];
    let one = rank_results(&vec![a.clone(), b.clone(), c.clone()], 4);
    let two = rank_results(&vec![c, b, a], 4);
    assert_eq!(one, two);
    assert_eq!(one, vec![(7, 0x8000), (3, 0x9000), (3, 0x1000), (2, 0x5000)]);
}

#[test]
fn score_does_not_depend_on_the_order_of_the_strings() {
    let pointers = set_of(&[0x1010, 0x1030, 0x2020]);
    assert_eq!(
        score_at(&vec![0x10, 0x20, 0x30], &pointers, 0x1000),
        score_at(&vec![0x30, 0x10, 0x20], &pointers, 0x1000)
    );
}

#[test]
fn every_string_colliding_gives_the_full_score() {
    let strings = vec![4u32, 8, 12, 16];
    let pointers = set_of(&[0x7004, 0x7008, 0x700C, 0x7010]);
    assert_eq!(score_at(&strings, &pointers, 0x7000), strings.len());
}

#[test]
fn scan_of_an_empty_range_finds_nothing() {
    let strings = vec![0x10u32];
    let pointers = set_of(&[0x1010, 0x2010]);
    let found = scan_interval_of(&strings, &pointers, 0x2000, 0x1000, 0x1000);
    assert_eq!(found, Vec::<(usize, u32)>::new());
}

#[test]
fn step_lists_a_scoring_candidate_and_gives_the_next() {
    let strings = vec![0x10u32, 0x20];
    let pointers = set_of(&[0x1010, 0x1020, 0x3010]);
    let mut found = vec![(9usize, 0u32)];
    assert_eq!(
        scan_step(&strings, &pointers, 0x1000, 0x3000, 0x1000, &mut found),
        Some(0x2000)
    );
    assert_eq!(found, vec![(9, 0), (2, 0x1000)]);
    assert_eq!(
        scan_step(&strings, &pointers, 0x2000, 0x3000, 0x1000, &mut found),
        Some(0x3000)
    );
    assert_eq!(found, vec![(9, 0), (2, 0x1000)]);
    assert_eq!(scan_step(&strings, &pointers, 0x3000, 0x3000, 0x1000, &mut found), None);
    assert_eq!(found, vec![(9, 0), (2, 0x1000), (1, 0x3000)]);
}

#[test]
fn step_ends_at_the_top_of_the_address_space() {
    let strings = vec![0u32];
    let pointers = set_of(&[0xFFFF_F000]);
    let mut found = Vec::new();
    assert_eq!(
        scan_step(&strings, &pointers, 0xFFFF_F000, 0xFFFF_FFFF, 0x1000, &mut found),
        None
    );
    assert_eq!(found, vec![(1, 0xFFFF_F000)]);
    assert_eq!(
        scan_step(&strings, &pointers, 0xFFFF_E000, 0xFFFF_FFFF, 0x1000, &mut found),
        Some(0xFFFF_F000)
    );
}
