//! The whole search: extraction, one scan per worker, ranking.

use crate::config::Config;
use crate::extract::get_pointers;
use crate::extract::get_strings;
use crate::extract::ExtractError;
use crate::extract::is_listing;
use crate::extract::is_start;
use crate::extract::offset_set;
use crate::extract::pointer_values;
use crate::extract::regex_match_starts;
use crate::extract::set_is_empty;
use crate::extract::set_items;
use crate::extract::string_pattern;
use crate::extract::truncated;
use crate::partition::interval_end;
use crate::partition::interval_start;
use crate::partition::is_power_of_two;
use crate::partition::lemma_intervals_cover;
use crate::partition::lemma_power_of_two_positive;
use crate::partition::lemma_start_below_end;
use crate::partition::lemma_start_is_aligned;
use crate::partition::InvalidPartition;
use crate::rank::concat_all;
use crate::rank::is_top_of;
use crate::rank::lemma_concat_holds_parts;
use crate::rank::lemma_highest_score_comes_first;
use crate::rank::lemma_left_out_means_full;
use crate::rank::lemma_ranking_is_determined;
use crate::rank::rank_results;
use crate::rank::ScoredCandidate;
use crate::scan::candidate;
use crate::scan::collides;
use crate::scan::is_scan_of;
use crate::scan::lemma_aligned_is_candidate;
use crate::scan::lemma_full_score;
use crate::scan::lemma_listing_len;
use crate::scan::lemma_scan_is_determined;
use crate::scan::lemma_scan_of_same_strings;
use crate::scan::lemma_score_bound;
use crate::scan::lemma_score_positive;
use crate::scan::scan_worker;
use crate::scan::score;
use fnv::FnvHashSet;
use vstd::prelude::*;
use vstd::string::StringExecFns;

verus! {

/// Why a search gave no ranked list.
#[derive(Debug, PartialEq, Eq)]
pub enum RunError {
    /// The matching engine refused the pattern for strings, in these words.
    Pattern(String),
    /// The image holds no string.
    NoStringsFound,
    /// A worker was given no interval.
    Partition(InvalidPartition),
}

impl RunError {
    /// The text for this error.
    pub fn message(&self) -> (text: String)
        ensures
            text@ == match *self {
                RunError::Pattern(words) => words@,
                RunError::NoStringsFound => "No strings found in target binary"@,
                RunError::Partition(InvalidPartition::Index) => "Invalid index specified"@,
                RunError::Partition(InvalidPartition::Stride) => "Invalid additive offset"@,
            },
    {
        match self {
            RunError::Pattern(words) => String::from_str(words.as_str()),
            RunError::NoStringsFound => String::from_str("No strings found in target binary"),
            RunError::Partition(e) => String::from_str(e.message()),
        }
    }
}

/// `parts` holds, for each worker from 0 on, what the scan of its interval
/// finds.
pub open spec fn are_scans_of(
    config: &Config,
    strings: Seq<u32>,
    pointers: Set<u32>,
    parts: Seq<Vec<ScoredCandidate>>,
) -> bool {
    forall|i: int|
        0 <= i < parts.len() ==> is_scan_of(
            strings,
            pointers,
            interval_start(i as nat, config.threads as nat, config.offset as nat) as u32,
            interval_end(i as nat, config.threads as nat, config.offset as nat) as u32,
            config.offset,
            (#[trigger] parts[i])@,
        )
}

/// `parts` holds, for each worker from 0 on, what the scan of its interval
/// finds for the set `strings` of string offsets.
pub open spec fn are_scans_of_set(
    config: &Config,
    strings: Set<u32>,
    pointers: Set<u32>,
    parts: Seq<Vec<ScoredCandidate>>,
) -> bool {
    exists|items: Seq<u32>|
        is_listing(items, strings) && #[trigger] are_scans_of(config, items, pointers, parts)
}

/// `top` is what a search finds: the ranked list of what the scans of all
/// workers find for the set `strings` of string offsets.
pub open spec fn is_search_of(
    config: &Config,
    strings: Set<u32>,
    pointers: Set<u32>,
    top: Seq<ScoredCandidate>,
) -> bool {
    exists|parts: Seq<Vec<ScoredCandidate>>|
        {
            &&& parts.len() == config.threads
            &&& #[trigger] are_scans_of_set(config, strings, pointers, parts)
            &&& is_top_of(concat_all(parts), config.max_matches as nat, top)
        }
}

/// Lists that hold the same candidates worker by worker hold the same
/// candidates in all.
proof fn lemma_concat_of_equal_parts(
    parts_a: Seq<Vec<ScoredCandidate>>,
    parts_b: Seq<Vec<ScoredCandidate>>,
)
    requires
        parts_a.len() == parts_b.len(),
        forall|i: int| 0 <= i < parts_a.len() ==> (#[trigger] parts_a[i])@ == parts_b[i]@,
    ensures
        concat_all(parts_a) == concat_all(parts_b),
    decreases parts_a.len(),
{
    if parts_a.len() > 0 {
        assert(parts_a.last()@ == parts_a[parts_a.len() - 1]@);
        assert(parts_a[parts_a.len() - 1]@ == parts_b[parts_a.len() - 1]@);
        let rest_a = parts_a.drop_last();
        let rest_b = parts_b.drop_last();
        assert forall|i: int| 0 <= i < rest_a.len() implies (#[trigger] rest_a[i])@
            == rest_b[i]@ by {
            assert(parts_a[i]@ == parts_b[i]@);
        }
        lemma_concat_of_equal_parts(rest_a, rest_b);
    }
}

/// A search has one outcome: two lists that both are what a search with the
/// same configuration finds for the same strings and pointers are the same
/// list, in whatever order the set of string offsets is walked.
pub proof fn lemma_search_is_determined(
    config: &Config,
    strings: Set<u32>,
    pointers: Set<u32>,
    top_a: Seq<ScoredCandidate>,
    top_b: Seq<ScoredCandidate>,
)
    requires
        is_search_of(config, strings, pointers, top_a),
        is_search_of(config, strings, pointers, top_b),
    ensures
        top_a == top_b,
{
    let parts_a = choose|p: Seq<Vec<ScoredCandidate>>|
        {
            &&& p.len() == config.threads
            &&& #[trigger] are_scans_of_set(config, strings, pointers, p)
            &&& is_top_of(concat_all(p), config.max_matches as nat, top_a)
        };
    let parts_b = choose|p: Seq<Vec<ScoredCandidate>>|
        {
            &&& p.len() == config.threads
            &&& #[trigger] are_scans_of_set(config, strings, pointers, p)
            &&& is_top_of(concat_all(p), config.max_matches as nat, top_b)
        };
    let items_a = choose|items: Seq<u32>|
        is_listing(items, strings) && #[trigger] are_scans_of(config, items, pointers, parts_a);
    let items_b = choose|items: Seq<u32>|
        is_listing(items, strings) && #[trigger] are_scans_of(config, items, pointers, parts_b);
    assert forall|i: int| 0 <= i < parts_a.len() implies (#[trigger] parts_a[i])@
        == parts_b[i]@ by {
        let start = interval_start(i as nat, config.threads as nat, config.offset as nat) as u32;
        let end = interval_end(i as nat, config.threads as nat, config.offset as nat) as u32;
        assert(is_scan_of(items_a, pointers, start, end, config.offset, parts_a[i]@));
        assert(is_scan_of(items_b, pointers, start, end, config.offset, parts_b[i]@));
        lemma_scan_of_same_strings(
            items_b,
            items_a,
            pointers,
            start,
            end,
            config.offset,
            parts_b[i]@,
        );
        lemma_scan_is_determined(
            items_a,
            pointers,
            start,
            end,
            config.offset,
            parts_a[i]@,
            parts_b[i]@,
        );
    }
    lemma_concat_of_equal_parts(parts_a, parts_b);
    lemma_ranking_is_determined(
        concat_all(parts_a),
        concat_all(parts_b),
        config.max_matches as nat,
        top_a,
        top_b,
    );
}

/// What the workers hold for an address that scores: where `base` is a
/// multiple of the stride and its score is above zero, the worker whose
/// interval holds `base` lists it with its score.
pub proof fn lemma_scoring_base_is_found(
    config: &Config,
    items: Seq<u32>,
    pointers: Set<u32>,
    parts: Seq<Vec<ScoredCandidate>>,
    base: u32,
)
    requires
        parts.len() == config.threads,
        config.threads >= 1,
        are_scans_of(config, items, pointers, parts),
        is_power_of_two(config.offset as nat),
        base % config.offset == 0,
        score(items, pointers, base) > 0,
    ensures
        score(items, pointers, base) <= usize::MAX,
        concat_all(parts).contains((score(items, pointers, base) as usize, base)),
{
    let workers = config.threads as nat;
    let stride = config.offset as nat;
    lemma_power_of_two_positive(stride);
    lemma_intervals_cover(workers, stride, base as nat);
    let w = choose|i: nat|
        i < workers && interval_start(i, workers, stride) <= base <= #[trigger] interval_end(
            i,
            workers,
            stride,
        );
    lemma_start_below_end(w, workers, stride);
    lemma_start_is_aligned(w, workers, stride);
    let start = interval_start(w, workers, stride) as u32;
    let end = interval_end(w, workers, stride) as u32;
    lemma_aligned_is_candidate(start, config.offset, base);
    let step = choose|step: nat| #[trigger] candidate(start, config.offset, step) == base;
    let found = parts[w as int]@;
    assert(is_scan_of(items, pointers, start, end, config.offset, found));
    let entry = (score(items, pointers, base) as usize, base);
    assert(candidate(start, config.offset, step) <= end);
    assert(found.contains(entry));
    let at = choose|at: int| 0 <= at < found.len() && found[at] == entry;
    assert(found[at].0 == score(items, pointers, found[at].1));
    lemma_concat_holds_parts(parts, entry);
}

/// The base address comes out on top: where every string of the image, loaded
/// at `base`, lies at an address that is one of the pointers, and `base` is a
/// multiple of the stride, the ranked list of a search with at least one
/// worker begins with the highest score that there is, the number of
/// strings. `base` itself is listed with that score, unless the list is full
/// of candidates with that score.
pub proof fn lemma_known_base_comes_first(
    config: &Config,
    strings: Set<u32>,
    pointers: Set<u32>,
    top: Seq<ScoredCandidate>,
    base: u32,
)
    requires
        is_search_of(config, strings, pointers, top),
        config.threads >= 1,
        config.max_matches >= 1,
        is_power_of_two(config.offset as nat),
        base % config.offset == 0,
        exists|v: u32| strings.contains(v),
        forall|v: u32| strings.contains(v) ==> collides(v, pointers, base),
    ensures
        strings.finite(),
        top.len() >= 1,
        top[0].0 == strings.len(),
        top.contains((strings.len() as usize, base)) || (top.len() == config.max_matches
            && forall|i: int| 0 <= i < top.len() ==> (#[trigger] top[i]).0 == strings.len()),
{
    let parts = choose|p: Seq<Vec<ScoredCandidate>>|
        {
            &&& p.len() == config.threads
            &&& #[trigger] are_scans_of_set(config, strings, pointers, p)
            &&& is_top_of(concat_all(p), config.max_matches as nat, top)
        };
    let items = choose|items: Seq<u32>|
        is_listing(items, strings) && #[trigger] are_scans_of(config, items, pointers, parts);
    let all = concat_all(parts);
    lemma_listing_len(items, strings);
    let some = choose|v: u32| strings.contains(v);
    assert(items.contains(some));
    assert forall|i: int| 0 <= i < items.len() implies collides(
        #[trigger] items[i],
        pointers,
        base,
    ) by {
        assert(items.contains(items[i]));
    }
    lemma_full_score(items, pointers, base);
    lemma_scoring_base_is_found(config, items, pointers, parts, base);
    let entry = (score(items, pointers, base) as usize, base);
    assert forall|i: int| 0 <= i < all.len() implies (#[trigger] all[i]).0 <= entry.0 by {
        let x = all[i];
        assert(all.contains(x));
        lemma_concat_holds_parts(parts, x);
        let p = choose|p: int| 0 <= p < parts.len() && (#[trigger] parts[p])@.contains(x);
        let m = choose|m: int| 0 <= m < parts[p]@.len() && parts[p]@[m] == x;
        let from = interval_start(p as nat, config.threads as nat, config.offset as nat) as u32;
        let to = interval_end(p as nat, config.threads as nat, config.offset as nat) as u32;
        assert(is_scan_of(items, pointers, from, to, config.offset, parts[p]@));
        assert(parts[p]@[m].0 == score(items, pointers, parts[p]@[m].1));
        lemma_score_bound(items, pointers, x.1);
    }
    lemma_highest_score_comes_first(all, config.max_matches as nat, top, entry);
    if !top.contains(entry) {
        lemma_left_out_means_full(all, config.max_matches as nat, top, entry);
        assert forall|i: int| 0 <= i < top.len() implies (#[trigger] top[i]).0 == entry.0 by {
            crate::rank::lemma_top_is_highest(all, config.max_matches as nat, top, entry);
            let x = top[i];
            assert(top.contains(x));
            top.to_multiset_ensures();
            all.to_multiset_ensures();
            assert(top.to_multiset().count(x) <= all.to_multiset().count(x));
            assert(all.contains(x));
            let j = choose|j: int| 0 <= j < all.len() && all[j] == x;
            assert(all[j].0 <= entry.0);
        }
    }
}

/// Some string of the image, loaded at `base`, lies at an address that is
/// one of the pointers: the score of `base` is above zero.
pub open spec fn scores(strings: Set<u32>, pointers: Set<u32>, base: u32) -> bool {
    exists|v: u32| strings.contains(v) && collides(v, pointers, base)
}

/// The ranked list is never longer than asked for, and it is as long as
/// asked for where at least that many addresses score: for any addresses
/// `bases`, each a multiple of the stride with a score above zero and no two
/// the same, the list holds `config.max_matches` entries or at least as many
/// as there are `bases`.
pub proof fn lemma_list_is_full(
    config: &Config,
    strings: Set<u32>,
    pointers: Set<u32>,
    top: Seq<ScoredCandidate>,
    bases: Seq<u32>,
)
    requires
        is_search_of(config, strings, pointers, top),
        config.threads >= 1,
        is_power_of_two(config.offset as nat),
        bases.no_duplicates(),
        forall|i: int|
            0 <= i < bases.len() ==> (#[trigger] bases[i]) % config.offset == 0 && scores(
                strings,
                pointers,
                bases[i],
            ),
    ensures
        top.len() <= config.max_matches,
        bases.len() >= config.max_matches ==> top.len() == config.max_matches,
        bases.len() < config.max_matches ==> top.len() >= bases.len(),
{
    let parts = choose|p: Seq<Vec<ScoredCandidate>>|
        {
            &&& p.len() == config.threads
            &&& #[trigger] are_scans_of_set(config, strings, pointers, p)
            &&& is_top_of(concat_all(p), config.max_matches as nat, top)
        };
    let items = choose|items: Seq<u32>|
        is_listing(items, strings) && #[trigger] are_scans_of(config, items, pointers, parts);
    let all = concat_all(parts);
    let entries = Seq::new(
        bases.len(),
        |i: int| (score(items, pointers, bases[i]) as usize, bases[i]),
    );
    assert forall|i: int| 0 <= i < entries.len() implies all.contains(#[trigger] entries[i]) by {
        let base = bases[i];
        assert(scores(strings, pointers, base));
        let v = choose|v: u32| strings.contains(v) && collides(v, pointers, base);
        assert(items.contains(v));
        let at = choose|at: int| 0 <= at < items.len() && items[at] == v;
        assert(collides(items[at], pointers, base));
        lemma_score_positive(items, pointers, base);
        lemma_scoring_base_is_found(config, items, pointers, parts, base);
    }
    assert(entries.no_duplicates()) by {
        assert forall|i: int, j: int|
            0 <= i < entries.len() && 0 <= j < entries.len() && i != j implies entries[i]
            != entries[j] by {
            assert(bases[i] != bases[j]);
        }
    }
    assert(entries.to_set().subset_of(all.to_set())) by {
        assert forall|x: ScoredCandidate| entries.to_set().contains(x) implies all.to_set().contains(
            x,
        ) by {
            assert(entries.contains(x));
            let i = choose|i: int| 0 <= i < entries.len() && entries[i] == x;
            assert(all.contains(entries[i]));
        }
    }
    entries.unique_seq_to_set();
    all.lemma_cardinality_of_set();
    vstd::seq_lib::seq_to_set_is_finite(all);
    vstd::set_lib::lemma_len_subset(entries.to_set(), all.to_set());
}

/// The string offsets and the pointer values of `buffer`. An image without
/// strings is refused: no candidate could score.
pub fn extract(config: &Config, buffer: &[u8]) -> (r: Result<
    (FnvHashSet<u32>, FnvHashSet<u32>),
    RunError,
>)
    ensures
        match regex_match_starts(string_pattern(config.min_str_len as nat), buffer@) {
            None => r is Err && r->Err_0 is Pattern,
            Some(starts) => if starts.len() == 0 {
                r is Err && r->Err_0 == RunError::NoStringsFound
            } else {
                r is Ok && r->Ok_0.0@ == offset_set(starts) && r->Ok_0.1@ == pointer_values(
                    buffer@,
                    config.big_endian,
                )
            },
        },
{
    let strings = match get_strings(config, buffer) {
        Ok(strings) => strings,
        Err(ExtractError::Pattern(words)) => {
            return Err(RunError::Pattern(words));
        },
    };
    let ghost starts = regex_match_starts(
        string_pattern(config.min_str_len as nat),
        buffer@,
    )->Some_0;
    if set_is_empty(&strings) {
        proof {
            if starts.len() > 0 {
                assert(is_start(starts, truncated(starts[0])));
                assert(offset_set(starts).contains(truncated(starts[0])));
            }
        }
        return Err(RunError::NoStringsFound);
    }
    proof {
        if starts.len() == 0 {
            assert(offset_set(starts) =~= Set::<u32>::empty());
        }
    }
    let pointers = get_pointers(config, buffer);
    Ok((strings, pointers))
}

/// Scans the interval of each worker, one after the other.
pub fn scan_all(config: &Config, strings: &FnvHashSet<u32>, pointers: &FnvHashSet<u32>) -> (r:
    Result<Vec<Vec<ScoredCandidate>>, InvalidPartition>)
    ensures
        config.threads > 0 && !is_power_of_two(config.offset as nat) ==> r == Err::<
            Vec<Vec<ScoredCandidate>>,
            InvalidPartition,
        >(InvalidPartition::Stride),
        config.threads == 0 || is_power_of_two(config.offset as nat) ==> r is Ok && r->Ok_0@.len()
            == config.threads && are_scans_of_set(config, strings@, pointers@, r->Ok_0@),
{
    let items = set_items(strings);
    let mut parts: Vec<Vec<ScoredCandidate>> = Vec::new();
    let mut worker: usize = 0;
    while worker < config.threads
        invariant
            worker <= config.threads,
            parts@.len() == worker,
            worker > 0 ==> is_power_of_two(config.offset as nat),
            are_scans_of(config, items@, pointers@, parts@),
        decreases config.threads - worker,
    {
        let found = match scan_worker(config, &items, pointers, worker) {
            Ok(found) => found,
            Err(e) => {
                return Err(e);
            },
        };
        parts.push(found);
        worker = worker + 1;
    }
    Ok(parts)
}

/// Searches `buffer` for its base address: the ranked list of the
/// candidates that score, at most `config.max_matches` of them.
pub fn run(config: &Config, buffer: &[u8]) -> (r: Result<Vec<ScoredCandidate>, RunError>)
    ensures
        match regex_match_starts(string_pattern(config.min_str_len as nat), buffer@) {
            None => r is Err && r->Err_0 is Pattern,
            Some(starts) => if starts.len() == 0 {
                r == Err::<Vec<ScoredCandidate>, RunError>(RunError::NoStringsFound)
            } else if config.threads > 0 && !is_power_of_two(config.offset as nat) {
                r == Err::<Vec<ScoredCandidate>, RunError>(
                    RunError::Partition(InvalidPartition::Stride),
                )
            } else {
                r is Ok && is_search_of(
                    config,
                    offset_set(starts),
                    pointer_values(buffer@, config.big_endian),
                    r->Ok_0@,
                )
            },
        },
{
    let (strings, pointers) = match extract(config, buffer) {
        Ok(sets) => sets,
        Err(e) => {
            return Err(e);
        },
    };
    let parts = match scan_all(config, &strings, &pointers) {
        Ok(parts) => parts,
        Err(e) => {
            return Err(RunError::Partition(e));
        },
    };
    let top = rank_results(&parts, config.max_matches);
    proof {
        assert(are_scans_of_set(config, strings@, pointers@, parts@));
    }
    Ok(top)
}

} // verus!
