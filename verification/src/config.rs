//! The options of one run.

use crate::number::parse_number;
use crate::number::parse_unsigned;
use crate::partition::is_power_of_two;
use crate::partition::power_of_two;
use vstd::prelude::*;
use vstd::string::StringSliceAdditionalSpecFns;

verus! {

/// The options of one run.
#[derive(Debug)]
pub struct Config {
    /// Decode pointers as big endian (else little endian).
    pub big_endian: bool,
    /// The path of the image to scan.
    pub filename: String,
    /// The least length of a string.
    pub min_str_len: usize,
    /// The number of candidates to report.
    pub max_matches: usize,
    /// The distance between two candidate base addresses, a power of two.
    pub offset: u32,
    /// The number of workers.
    pub threads: usize,
}

/// Why the options give no configuration.
#[derive(Debug, Clone, Copy, PartialEq, Eq, Structural)]
pub enum ConfigError {
    /// The number of candidates to report is no number above zero.
    MaxMatches,
    /// The least length of a string is no number above zero.
    MinStrLen,
    /// The offset is too short to hold `0x` and a digit.
    OffsetFormat,
    /// The offset does not begin with `0x`.
    OffsetPrefix,
    /// What follows `0x` is no hexadecimal number of 32 bits.
    OffsetNumber,
    /// The offset is not a power of two.
    OffsetPower,
    /// The number of workers is no number.
    Threads,
}

/// The text of an option as bytes.
pub open spec fn option_bytes(text: Option<&str>) -> Option<Seq<u8>> {
    match text {
        Some(t) => Some(t.spec_bytes()),
        None => None,
    }
}

/// The value of an option that is a decimal count; `default` where it is not
/// given, `None` where it is no number that fits.
pub open spec fn count_option(text: Option<Seq<u8>>, default: nat) -> Option<nat> {
    match text {
        Some(t) => parse_number(t, 10, usize::MAX as nat),
        None => Some(default),
    }
}

/// The value of an option that is a decimal count above zero; `default`
/// where it is not given, `None` where it is zero or no number that fits.
pub open spec fn positive_option(text: Option<Seq<u8>>, default: nat) -> Option<nat> {
    match count_option(text, default) {
        Some(v) => if v >= 1 {
            Some(v)
        } else {
            None
        },
        None => None,
    }
}

/// The value of the offset option: `0x1000` where it is not given, else the
/// hexadecimal number behind `0x`, which must be a power of two.
pub open spec fn offset_option(text: Option<Seq<u8>>) -> Result<u32, ConfigError> {
    match text {
        None => Ok(0x1000u32),
        Some(t) => if t.len() <= 2 {
            Err(ConfigError::OffsetFormat)
        } else if t[0] != 0x30 || t[1] != 0x78 {
            Err(ConfigError::OffsetPrefix)
        } else {
            match parse_number(t.skip(2), 16, 0xFFFF_FFFF) {
                None => Err(ConfigError::OffsetNumber),
                Some(v) => if is_power_of_two(v) {
                    Ok(v as u32)
                } else {
                    Err(ConfigError::OffsetPower)
                },
            }
        },
    }
}

/// The configuration that the options give on a machine with `cpus`
/// processors, or the first option that is wrong: the number of candidates,
/// the least string length, the offset and the number of workers are looked at
/// in this order. The first two must be above zero. Zero workers, or none
/// given, stands for one per processor.
pub open spec fn config_for(
    big_endian: bool,
    filename: String,
    max_matches: Option<Seq<u8>>,
    min_str_len: Option<Seq<u8>>,
    offset: Option<Seq<u8>>,
    threads: Option<Seq<u8>>,
    cpus: usize,
) -> Result<Config, ConfigError> {
    if positive_option(max_matches, 10) is None {
        Err(ConfigError::MaxMatches)
    } else if positive_option(min_str_len, 10) is None {
        Err(ConfigError::MinStrLen)
    } else if offset_option(offset) is Err {
        Err(offset_option(offset)->Err_0)
    } else if count_option(threads, 0) is None {
        Err(ConfigError::Threads)
    } else {
        Ok(
            (Config {
                big_endian,
                filename,
                min_str_len: positive_option(min_str_len, 10)->Some_0 as usize,
                max_matches: positive_option(max_matches, 10)->Some_0 as usize,
                offset: offset_option(offset)->Ok_0,
                threads: if count_option(threads, 0)->Some_0 == 0 {
                    cpus
                } else {
                    count_option(threads, 0)->Some_0 as usize
                },
            }),
        )
    }
}

/// `num_cpus::get`: the number of processors that this process may use.
/// Nothing is claimed of it.
#[verifier::external_body]
fn available_cpus() -> usize {
    num_cpus::get()
}

/// Reads an option that is a decimal count.
pub fn read_count(text: Option<&str>, default: usize) -> (r: Option<usize>)
    ensures
        match count_option(option_bytes(text), default as nat) {
            Some(v) => r == Some(v as usize),
            None => r is None,
        },
{
    match text {
        None => Some(default),
        Some(t) => match parse_unsigned(t.as_bytes(), 10, usize::MAX as u64) {
            Some(v) => Some(v as usize),
            None => None,
        },
    }
}

/// Reads an option that is a decimal count above zero.
pub fn read_positive(text: Option<&str>, default: usize) -> (r: Option<usize>)
    ensures
        match positive_option(option_bytes(text), default as nat) {
            Some(v) => r == Some(v as usize),
            None => r is None,
        },
        r is Some ==> r->Some_0 >= 1,
{
    match read_count(text, default) {
        Some(v) => if v >= 1 {
            Some(v)
        } else {
            None
        },
        None => None,
    }
}

/// Reads the offset option.
pub fn read_offset(text: Option<&str>) -> (r: Result<u32, ConfigError>)
    ensures
        r == offset_option(option_bytes(text)),
        r is Ok ==> is_power_of_two(r->Ok_0 as nat),
{
    let t = match text {
        None => {
            proof {
                reveal_with_fuel(is_power_of_two, 14);
                assert(is_power_of_two(0x1000));
            }
            return Ok(0x1000);
        },
        Some(t) => t.as_bytes(),
    };
    if t.len() <= 2 {
        return Err(ConfigError::OffsetFormat);
    }
    if t[0] != 0x30 || t[1] != 0x78 {
        return Err(ConfigError::OffsetPrefix);
    }
    let digits = vstd::slice::slice_subrange(t, 2, t.len());
    proof {
        assert(digits@ =~= t@.skip(2));
    }
    match parse_unsigned(digits, 16, 0xFFFF_FFFF) {
        None => Err(ConfigError::OffsetNumber),
        Some(v) => if power_of_two(v as u32) {
            Ok(v as u32)
        } else {
            Err(ConfigError::OffsetPower)
        },
    }
}

impl ConfigError {
    /// The text for this error.
    pub fn message(&self) -> (text: &'static str)
        ensures
            text@ == match *self {
                ConfigError::MaxMatches => "failed to parse maxmatches"@,
                ConfigError::MinStrLen => "failed to parse minstrlen"@,
                ConfigError::OffsetFormat => "offset format is invalid"@,
                ConfigError::OffsetPrefix => "ensure offset parameter begins with 0x."@,
                ConfigError::OffsetNumber => "failed to parse offset"@,
                ConfigError::OffsetPower => "Offset is not a power of 2"@,
                ConfigError::Threads => "failed to parse threads"@,
            },
    {
        match self {
            ConfigError::MaxMatches => "failed to parse maxmatches",
            ConfigError::MinStrLen => "failed to parse minstrlen",
            ConfigError::OffsetFormat => "offset format is invalid",
            ConfigError::OffsetPrefix => "ensure offset parameter begins with 0x.",
            ConfigError::OffsetNumber => "failed to parse offset",
            ConfigError::OffsetPower => "Offset is not a power of 2",
            ConfigError::Threads => "failed to parse threads",
        }
    }
}

impl Config {
    /// The configuration that the options give on a machine with `cpus`
    /// processors.
    pub fn from_options(
        big_endian: bool,
        filename: String,
        max_matches: Option<&str>,
        min_str_len: Option<&str>,
        offset: Option<&str>,
        threads: Option<&str>,
        cpus: usize,
    ) -> (r: Result<Config, ConfigError>)
        ensures
            r == config_for(
                big_endian,
                filename,
                option_bytes(max_matches),
                option_bytes(min_str_len),
                option_bytes(offset),
                option_bytes(threads),
                cpus,
            ),
            r is Ok ==> r->Ok_0.min_str_len >= 1 && r->Ok_0.max_matches >= 1 && is_power_of_two(
                r->Ok_0.offset as nat,
            ),
    {
        let max_matches = match read_positive(max_matches, 10) {
            Some(v) => v,
            None => {
                return Err(ConfigError::MaxMatches);
            },
        };
        let min_str_len = match read_positive(min_str_len, 10) {
            Some(v) => v,
            None => {
                return Err(ConfigError::MinStrLen);
            },
        };
        let offset = match read_offset(offset) {
            Ok(v) => v,
            Err(e) => {
                return Err(e);
            },
        };
        let threads = match read_count(threads, 0) {
            Some(v) => if v == 0 {
                cpus
            } else {
                v
            },
            None => {
                return Err(ConfigError::Threads);
            },
        };
        Ok(Config { big_endian, filename, min_str_len, max_matches, offset, threads })
    }

    /// The configuration that the options give on this machine: where no
    /// number of workers is asked for, one per processor.
    pub fn new(
        big_endian: bool,
        filename: String,
        max_matches: Option<&str>,
        min_str_len: Option<&str>,
        offset: Option<&str>,
        threads: Option<&str>,
    ) -> (r: Result<Config, ConfigError>)
        ensures
            exists|cpus: usize|
                r == #[trigger] config_for(
                    big_endian,
                    filename,
                    option_bytes(max_matches),
                    option_bytes(min_str_len),
                    option_bytes(offset),
                    option_bytes(threads),
                    cpus,
                ),
            r is Ok ==> r->Ok_0.min_str_len >= 1 && r->Ok_0.max_matches >= 1 && is_power_of_two(
                r->Ok_0.offset as nat,
            ),
    {
        let cpus = available_cpus();
        Config::from_options(big_endian, filename, max_matches, min_str_len, offset, threads, cpus)
    }
}

} // verus!
