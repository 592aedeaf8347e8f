use rbasefind::number::digit_of;
use rbasefind::number::parse_unsigned;
use rbasefind::config::read_count;
use rbasefind::config::read_positive;
use rbasefind::config::read_offset;
use rbasefind::run::extract;
use rbasefind::run::scan_all;
use rbasefind::run;
use rbasefind::Config;
use rbasefind::ConfigError;
use rbasefind::InvalidPartition;
use rbasefind::RunError;

fn options(
    max_matches: Option<&str>,
    min_str_len: Option<&str>,
    offset: Option<&str>,
    threads: Option<&str>,
) -> Result<Config, ConfigError> {
    Config::from_options(false, String::from("image.bin"), max_matches, min_str_len, offset, threads, 6)
}

#[test]
fn defaults_where_nothing_is_given() {
    let c = options(None, None, None, None).unwrap();
    assert!(!c.big_endian);
    assert_eq!(c.filename, "image.bin");
    assert_eq!(c.max_matches, 10);
    assert_eq!(c.min_str_len, 10);
    assert_eq!(c.offset, 0x1000);
    assert_eq!(c.threads, 6);
}

#[test]
fn options_are_read() {
    let c = Config::from_options(
        true,
        String::from("fw"),
        Some("25"),
        Some("4"),
        Some("0x100"),
        Some("3"),
        8,
    )
    .unwrap();
    assert!(c.big_endian);
    assert_eq!(c.filename, "fw");
    assert_eq!(c.max_matches, 25);
    assert_eq!(c.min_str_len, 4);
    assert_eq!(c.offset, 0x100);
    assert_eq!(c.threads, 3);
}

#[test]
fn zero_threads_stand_for_one_per_processor() {
    assert_eq!(options(None, None, None, Some("0")).unwrap().threads, 6);
    assert_eq!(options(None, None, None, Some("1")).unwrap().threads, 1);
}

#[test]
fn new_takes_the_processors_of_this_machine() {
    let c = Config::new(false, String::from("fw"), None, None, None, Some("5")).unwrap();
    assert_eq!(c.threads, 5);
    assert_eq!(c.offset, 0x1000);
    assert_eq!(
        Config::new(false, String::from("fw"), None, None, Some("0x3"), None).unwrap_err(),
        ConfigError::OffsetPower
    );
}

#[test]
fn each_wrong_option_has_its_error() {
    assert_eq!(options(Some("x"), None, None, None).unwrap_err(), ConfigError::MaxMatches);
    assert_eq!(options(None, Some("-1"), None, None).unwrap_err(), ConfigError::MinStrLen);
    assert_eq!(options(None, None, Some("0x"), None).unwrap_err(), ConfigError::OffsetFormat);
    assert_eq!(options(None, None, Some(""), None).unwrap_err(), ConfigError::OffsetFormat);
    assert_eq!(options(None, None, Some("4096"), None).unwrap_err(), ConfigError::OffsetPrefix);
    assert_eq!(options(None, None, Some("0X10"), None).unwrap_err(), ConfigError::OffsetPrefix);
    assert_eq!(options(None, None, Some("0x1g"), None).unwrap_err(), ConfigError::OffsetNumber);
    assert_eq!(
        options(None, None, Some("0x100000000"), None).unwrap_err(),
        ConfigError::OffsetNumber
    );
    assert_eq!(options(None, None, Some("0x0"), None).unwrap_err(), ConfigError::OffsetPower);
    assert_eq!(options(None, None, Some("0x1800"), None).unwrap_err(), ConfigError::OffsetPower);
    assert_eq!(options(None, None, None, Some("two")).unwrap_err(), ConfigError::Threads);
}

#[test]
fn first_wrong_option_is_reported() {
    assert_eq!(
        options(Some(""), Some(""), Some(""), Some("")).unwrap_err(),
        ConfigError::MaxMatches
    );
    assert_eq!(
        options(None, Some("1"), Some("12"), Some("z")).unwrap_err(),
        ConfigError::OffsetFormat
    );
}

#[test]
fn error_texts() {
    assert_eq!(ConfigError::MaxMatches.message(), "failed to parse maxmatches");
    assert_eq!(ConfigError::MinStrLen.message(), "failed to parse minstrlen");
    assert_eq!(ConfigError::OffsetFormat.message(), "offset format is invalid");
    assert_eq!(ConfigError::OffsetPrefix.message(), "ensure offset parameter begins with 0x.");
    assert_eq!(ConfigError::OffsetNumber.message(), "failed to parse offset");
    assert_eq!(ConfigError::OffsetPower.message(), "Offset is not a power of 2");
    assert_eq!(ConfigError::Threads.message(), "failed to parse threads");
    assert_eq!(InvalidPartition::Index.message(), "Invalid index specified");
    assert_eq!(InvalidPartition::Stride.message(), "Invalid additive offset");
    assert_eq!(RunError::NoStringsFound.message(), "No strings found in target binary");
    assert_eq!(
        RunError::Partition(InvalidPartition::Stride).message(),
        "Invalid additive offset"
    );
}

#[test]
fn numbers_are_read_as_the_standard_library_reads_them() {
    for text in ["0", "7", "10", "+10", "007", "", "+", "-", "-0", "1_0", " 1", "1 ", "12a", "++1",
        "4294967295", "4294967296", "18446744073709551615", "18446744073709551616",
        "99999999999999999999999999"]
    {
        assert_eq!(
            parse_unsigned(text.as_bytes(), 10, u64::MAX),
            text.parse::<u64>().ok(),
            "{:?}",
            text
        );
        assert_eq!(
            parse_unsigned(text.as_bytes(), 10, 0xFFFF_FFFF),
            text.parse::<u32>().ok().map(u64::from),
            "{:?}",
            text
        );
    }
    for text in ["0", "ff", "FF", "+fF", "1000", "g", "0x10", "ffffffff", "100000000", "", "+"] {
        assert_eq!(
            parse_unsigned(text.as_bytes(), 16, 0xFFFF_FFFF),
            u32::from_str_radix(text, 16).ok().map(u64::from),
            "{:?}",
            text
        );
    }
}

#[test]
fn digits_by_base() {
    assert_eq!(digit_of(b'0', 10), Some(0));
    assert_eq!(digit_of(b'9', 10), Some(9));
    assert_eq!(digit_of(b'a', 10), None);
    assert_eq!(digit_of(b'a', 16), Some(10));
    assert_eq!(digit_of(b'F', 16), Some(15));
    assert_eq!(digit_of(b'g', 16), None);
    assert_eq!(digit_of(b'z', 36), Some(35));
    assert_eq!(digit_of(b'/', 36), None);
    assert_eq!(digit_of(b'8', 8), None);
}

#[test]
fn counts_and_offsets() {
    assert_eq!(read_count(None, 10), Some(10));
    assert_eq!(read_count(Some("42"), 10), Some(42));
    assert_eq!(read_count(Some("4 2"), 10), None);
    assert_eq!(read_offset(None), Ok(0x1000));
    assert_eq!(read_offset(Some("0x80000000")), Ok(0x8000_0000));
    assert_eq!(read_offset(Some("0x+10")), Ok(0x10));
    assert_eq!(read_offset(Some("\u{e9}\u{e9}")), Err(ConfigError::OffsetPrefix));
}

fn config(threads: usize, offset: u32, max_matches: usize) -> Config {
    Config {
        big_endian: true,
        filename: String::new(),
        min_str_len: 10,
        max_matches,
        offset,
        threads,
    }
}

fn image() -> Vec<u8> {
    let mut image = Vec::new();
    image.extend_from_slice(b"a string of text");
    image.push(0);
    image.extend_from_slice(&[0, 0, 0]);
    image.extend_from_slice(b"another string!");
    image.push(0);
    image.extend_from_slice(&0x2000_0000u32.to_be_bytes());
    image.extend_from_slice(&0x2000_0014u32.to_be_bytes());
    image.extend_from_slice(&0x3000_0014u32.to_be_bytes());
    image
}

#[test]
fn search_ranks_the_base_address_first() {
    let top = run(&config(4, 0x1000_0000, 10), &image()).unwrap();
    assert_eq!(top, vec![(2, 0x2000_0000), (1, 0x3000_0000), (1, 0)]);
    let top = run(&config(1, 0x1000_0000, 1), &image()).unwrap();
    assert_eq!(top, vec![(2, 0x2000_0000)]);
    let again = run(&config(1, 0x1000_0000, 1), &image()).unwrap();
    assert_eq!(top, again);
}

#[test]
fn search_without_strings_fails() {
    let blank = vec![0xFFu8; 64];
    assert_eq!(run(&config(2, 0x1000, 10), &blank), Err(RunError::NoStringsFound));
    assert_eq!(run(&config(2, 0x1000, 10), &[]), Err(RunError::NoStringsFound));
    assert_eq!(extract(&config(2, 0x1000, 10), &blank).unwrap_err(), RunError::NoStringsFound);
}

#[test]
fn search_with_a_wrong_stride_fails() {
    assert_eq!(
        run(&config(2, 0x1001, 10), &image()),
        Err(RunError::Partition(InvalidPartition::Stride))
    );
}

#[test]
fn search_without_workers_finds_nothing() {
    assert_eq!(run(&config(0, 0x1000, 10), &image()), Ok(Vec::new()));
}

#[test]
fn pattern_that_the_engine_refuses() {
    let mut cfg = config(1, 0x1000, 10);
    cfg.min_str_len = 100_000_000;
    match run(&cfg, &image()) {
        Err(RunError::Pattern(words)) => {
            assert!(!words.is_empty());
            assert_eq!(RunError::Pattern(words.clone()).message(), words);
        }
        other => panic!("{:?}", other),
    }
}

#[test]
fn each_worker_has_its_part() {
    let cfg = config(4, 0x1000_0000, 10);
    let (strings, pointers) = extract(&cfg, &image()).unwrap();
    assert_eq!(strings.len(), 2);
    assert_eq!(pointers.len(), 12);
    let parts = scan_all(&cfg, &strings, &pointers).unwrap();
    assert_eq!(
        parts,
        vec![vec![(1, 0), (2, 0x2000_0000), (1, 0x3000_0000)], vec![], vec![], vec![]]
    );
}

#[test]
fn zero_candidates_to_report_are_refused() {
    assert_eq!(options(Some("0"), None, None, None).unwrap_err(), ConfigError::MaxMatches);
    assert_eq!(options(Some("+0"), None, None, None).unwrap_err(), ConfigError::MaxMatches);
    assert_eq!(options(Some("000"), Some("0"), None, None).unwrap_err(), ConfigError::MaxMatches);
    assert_eq!(options(Some("1"), None, None, None).unwrap().max_matches, 1);
    assert_eq!(
        Config::new(false, String::from("fw"), Some("0"), None, None, None).unwrap_err(),
        ConfigError::MaxMatches
    );
}

#[test]
fn zero_string_length_is_refused() {
    assert_eq!(options(None, Some("0"), None, None).unwrap_err(), ConfigError::MinStrLen);
    assert_eq!(options(None, Some("00"), None, None).unwrap_err(), ConfigError::MinStrLen);
    assert_eq!(options(None, Some("1"), None, None).unwrap().min_str_len, 1);
    assert_eq!(
        Config::new(false, String::from("fw"), None, Some("0"), None, None).unwrap_err(),
        ConfigError::MinStrLen
    );
}

#[test]
fn positive_counts() {
    assert_eq!(read_positive(None, 10), Some(10));
    assert_eq!(read_positive(Some("3"), 10), Some(3));
    assert_eq!(read_positive(Some("0"), 10), None);
    assert_eq!(read_positive(Some("x"), 10), None);
    assert_eq!(read_count(Some("0"), 10), Some(0));
}
