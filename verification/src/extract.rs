//! Reading string offsets and pointer values out of an image.

use crate::config::Config;
use byteorder::BigEndian;
use byteorder::ByteOrder;
use byteorder::LittleEndian;
use fnv::FnvHashSet;
use regex::bytes::Regex;
use vstd::prelude::*;
use vstd::slice::slice_subrange;
use vstd::string::StringExecFns;

verus! {

/// `fnv::FnvHasher`, the hasher of the sets of offsets and pointers.
#[verifier::external_type_specification]
#[verifier::external_body]
pub struct ExFnvHasher(fnv::FnvHasher);

/// `core::hash::BuildHasherDefault`, through which `fnv::FnvHashSet` names
/// its hasher.
#[verifier::external_type_specification]
#[verifier::external_body]
#[verifier::reject_recursive_types(H)]
pub struct ExBuildHasherDefault<H>(core::hash::BuildHasherDefault<H>);

/// `default` of `fnv::FnvHashSet`, a standard hash set that hashes with FNV:
/// a set that holds nothing.
#[verifier::external_body]
pub(crate) fn set_new() -> (set: FnvHashSet<u32>)
    ensures
        set@ == Set::<u32>::empty(),
{
    FnvHashSet::default()
}

/// `insert` of a standard hash set that hashes with FNV: afterwards the set
/// holds `value` and what it held before.
#[verifier::external_body]
pub(crate) fn set_insert(set: &mut FnvHashSet<u32>, value: u32)
    ensures
        final(set)@ == old(set)@.insert(value),
{
    set.insert(value);
}

/// `contains` of a standard hash set that hashes with FNV: whether the set
/// holds `value`.
#[verifier::external_body]
pub(crate) fn set_contains(set: &FnvHashSet<u32>, value: u32) -> (r: bool)
    ensures
        r == set@.contains(value),
{
    set.contains(&value)
}

/// `is_empty` of a standard hash set that hashes with FNV: whether the set
/// holds nothing.
#[verifier::external_body]
pub(crate) fn set_is_empty(set: &FnvHashSet<u32>) -> (r: bool)
    ensures
        r == (set@ == Set::<u32>::empty()),
{
    set.is_empty()
}

/// `items` holds each member of `set` once, and nothing else.
pub open spec fn is_listing(items: Seq<u32>, set: Set<u32>) -> bool {
    &&& items.no_duplicates()
    &&& forall|v: u32| items.contains(v) <==> set.contains(v)
}

/// `iter` of a standard hash set that hashes with FNV, its items copied out:
/// each member of the set once, in the order in which the set is walked, of
/// which nothing is claimed.
#[verifier::external_body]
pub(crate) fn set_items(set: &FnvHashSet<u32>) -> (items: Vec<u32>)
    ensures
        is_listing(items@, set@),
{
    set.iter().copied().collect()
}

/// The number that four bytes spell, the first byte weighing most.
pub open spec fn big_endian_value(b0: u8, b1: u8, b2: u8, b3: u8) -> nat {
    (b0 * 0x100_0000 + b1 * 0x1_0000 + b2 * 0x100 + b3) as nat
}

/// The number that four bytes spell, the first byte weighing least.
pub open spec fn little_endian_value(b0: u8, b1: u8, b2: u8, b3: u8) -> nat {
    big_endian_value(b3, b2, b1, b0)
}

/// `byteorder::BigEndian::read_u32`: the first four bytes of `group` as a
/// big-endian number.
#[verifier::external_body]
fn read_big_endian(group: &[u8]) -> (r: u32)
    requires
        group@.len() >= 4,
    ensures
        r as nat == big_endian_value(group@[0], group@[1], group@[2], group@[3]),
{
    BigEndian::read_u32(group)
}

/// `byteorder::LittleEndian::read_u32`: the first four bytes of `group` as a
/// little-endian number.
#[verifier::external_body]
fn read_little_endian(group: &[u8]) -> (r: u32)
    requires
        group@.len() >= 4,
    ensures
        r as nat == little_endian_value(group@[0], group@[1], group@[2], group@[3]),
{
    LittleEndian::read_u32(group)
}

/// Four bytes spell the same number in both byte orders exactly where they
/// read the same from both ends.
pub proof fn lemma_byte_orders_agree(b0: u8, b1: u8, b2: u8, b3: u8)
    ensures
        big_endian_value(b0, b1, b2, b3) == little_endian_value(b0, b1, b2, b3) <==> (b0 == b3
            && b1 == b2),
        big_endian_value(b0, b1, b2, b3) <= 0xFFFF_FFFF,
{
}

/// The value of the `k`th group of four bytes of `image`.
pub open spec fn group_value(image: Seq<u8>, k: int, big_endian: bool) -> nat
    recommends
        0 <= k < image.len() / 4,
{
    if big_endian {
        big_endian_value(image[4 * k], image[4 * k + 1], image[4 * k + 2], image[4 * k + 3])
    } else {
        little_endian_value(image[4 * k], image[4 * k + 1], image[4 * k + 2], image[4 * k + 3])
    }
}

/// The values of the first `groups` groups of four bytes of `image`.
pub open spec fn group_values(image: Seq<u8>, groups: int, big_endian: bool) -> Set<u32> {
    Set::new(
        |v: u32| exists|k: int| 0 <= k < groups && #[trigger] group_value(image, k, big_endian) == v,
    )
}

/// The pointer values of `image`: the values of its complete groups of four
/// bytes. Up to three bytes at the end belong to no group.
pub open spec fn pointer_values(image: Seq<u8>, big_endian: bool) -> Set<u32> {
    group_values(image, image.len() as int / 4, big_endian)
}

/// The set of the 32-bit values that `buffer` holds, in the byte order that
/// `config` asks for.
pub fn get_pointers(config: &Config, buffer: &[u8]) -> (pointers: FnvHashSet<u32>)
    ensures
        pointers@ == pointer_values(buffer@, config.big_endian),
{
    let mut pointers = set_new();
    let groups: usize = buffer.len() / 4;
    let mut k: usize = 0;
    while k < groups
        invariant
            k <= groups,
            groups == buffer@.len() / 4,
            4 * groups <= buffer@.len() <= usize::MAX,
            pointers@ == group_values(buffer@, k as int, config.big_endian),
        decreases groups - k,
    {
        let group = slice_subrange(buffer, 4 * k, 4 * k + 4);
        let value = if config.big_endian {
            read_big_endian(group)
        } else {
            read_little_endian(group)
        };
        set_insert(&mut pointers, value);
        proof {
            assert(value as nat == group_value(buffer@, k as int, config.big_endian));
            assert(pointers@ =~= group_values(buffer@, k + 1, config.big_endian));
        }
        k = k + 1;
    }
    pointers
}

/// `regex::Error`, with which the matching engine refuses a pattern.
#[verifier::external_type_specification]
#[verifier::external_body]
pub struct ExPatternError(regex::Error);

/// Why no string offsets were computed.
#[derive(Debug, PartialEq, Eq)]
pub enum ExtractError {
    /// The matching engine refused the pattern for strings of the least
    /// length asked for, in these words.
    Pattern(String),
}

/// `to_string` of `regex::Error`: the engine's words for why it refused a
/// pattern. Nothing is claimed of them.
#[verifier::external_body]
fn error_text(error: &regex::Error) -> String {
    error.to_string()
}

/// The decimal digit for `d`.
pub open spec fn digit_char(d: nat) -> char
    recommends
        d < 10,
{
    if d == 0 {
        '0'
    } else if d == 1 {
        '1'
    } else if d == 2 {
        '2'
    } else if d == 3 {
        '3'
    } else if d == 4 {
        '4'
    } else if d == 5 {
        '5'
    } else if d == 6 {
        '6'
    } else if d == 7 {
        '7'
    } else if d == 8 {
        '8'
    } else {
        '9'
    }
}

/// `n` in decimal digits, without sign or leading zeros.
pub open spec fn decimal_digits(n: nat) -> Seq<char>
    decreases n,
{
    if n < 10 {
        seq![digit_char(n)]
    } else {
        decimal_digits(n / 10).push(digit_char(n % 10))
    }
}

/// `to_string` of a `usize`: the number in decimal digits.
#[verifier::external_body]
fn decimal_text(n: usize) -> (text: String)
    ensures
        text@ == decimal_digits(n as nat),
{
    n.to_string()
}

/// The pattern of a string: at least `min_str_len` bytes that are printable
/// ASCII, tab, carriage return or line feed, and then a null byte.
pub open spec fn string_pattern(min_str_len: nat) -> Seq<char> {
    "[ -~\\t\\r\\n]{"@ + decimal_digits(min_str_len) + ",}\x00"@
}

/// Where the successive non-overlapping matches of `pattern` in `haystack`
/// begin, as `regex::bytes::Regex` finds them; `None` where it refuses the
/// pattern.
pub uninterp spec fn regex_match_starts(pattern: Seq<char>, haystack: Seq<u8>) -> Option<
    Seq<usize>,
>;

/// `regex::bytes::Regex::new` on `pattern`, then `find_iter` on `haystack`
/// and `start` of each match: the offsets at which the matches begin, in the
/// order in which the iterator yields them, or the error of `new`.
#[verifier::external_body]
fn match_starts(pattern: &str, haystack: &[u8]) -> (r: Result<Vec<usize>, regex::Error>)
    ensures
        match r {
            Ok(starts) => regex_match_starts(pattern@, haystack@) == Some(starts@),
            Err(_) => regex_match_starts(pattern@, haystack@) is None,
        },
{
    let matcher = Regex::new(pattern)?;
    Ok(matcher.find_iter(haystack).map(|found| found.start()).collect())
}

/// An offset kept to 32 bits.
pub open spec fn truncated(start: usize) -> u32 {
    start as u32
}

/// `offset` is one of `starts`, kept to 32 bits.
pub open spec fn is_start(starts: Seq<usize>, offset: u32) -> bool {
    exists|j: int| 0 <= j < starts.len() && #[trigger] truncated(starts[j]) == offset
}

/// The string offsets for `starts`: each of them, kept to 32 bits.
pub open spec fn offset_set(starts: Seq<usize>) -> Set<u32> {
    Set::new(|v: u32| is_start(starts, v))
}

/// The set of string offsets for the places where matches begin: each of
/// `starts` as a 32-bit offset.
pub fn string_offsets(starts: &Vec<usize>) -> (offsets: FnvHashSet<u32>)
    ensures
        offsets@ == offset_set(starts@),
{
    let mut offsets = set_new();
    let mut i: usize = 0;
    proof {
        assert(offsets@ =~= offset_set(starts@.take(0)));
    }
    while i < starts.len()
        invariant
            i <= starts.len(),
            offsets@ == offset_set(starts@.take(i as int)),
        decreases starts.len() - i,
    {
        let value = #[verifier::truncate]
        (starts[i] as u32);
        let ghost done = starts@.take(i as int);
        let ghost next = starts@.take(i + 1);
        proof {
            assert(next.drop_last() =~= done);
            assert(truncated(next[i as int]) == value);
            assert forall|v: u32| #[trigger]
                is_start(next, v) <==> (v == value || is_start(done, v)) by {
                if is_start(next, v) {
                    let j = choose|j: int| 0 <= j < next.len() && #[trigger] truncated(next[j]) == v;
                    if j < i {
                        assert(truncated(done[j]) == v);
                    }
                }
                if is_start(done, v) {
                    let j = choose|j: int| 0 <= j < done.len() && #[trigger] truncated(done[j]) == v;
                    assert(truncated(next[j]) == v);
                }
            }
        }
        set_insert(&mut offsets, value);
        proof {
            assert(offsets@ =~= offset_set(next));
        }
        i = i + 1;
    }
    proof {
        assert(starts@.take(i as int) =~= starts@);
    }
    offsets
}

/// The offsets at which the strings of `buffer` begin: a string is a run of
/// at least `config.min_str_len` printable bytes that a null byte ends.
pub fn get_strings(config: &Config, buffer: &[u8]) -> (r: Result<
    FnvHashSet<u32>,
    ExtractError,
>)
    ensures
        match r {
            Ok(strings) => regex_match_starts(
                string_pattern(config.min_str_len as nat),
                buffer@,
            ) matches Some(starts) && strings@ == offset_set(starts),
            Err(e) => e is Pattern && regex_match_starts(
                string_pattern(config.min_str_len as nat),
                buffer@,
            ) is None,
        },
{
    let mut pattern = String::from_str("[ -~\\t\\r\\n]{");
    let digits = decimal_text(config.min_str_len);
    pattern.append(digits.as_str());
    pattern.append(",}\x00");
    match match_starts(pattern.as_str(), buffer) {
        Ok(starts) => Ok(string_offsets(&starts)),
        Err(error) => Err(ExtractError::Pattern(error_text(&error))),
    }
}

} // verus!
