//! Scoring the candidate base addresses of one interval.

use crate::config::Config;
use crate::extract::is_listing;
use crate::extract::set_contains;
use crate::extract::set_items;
use crate::partition::interval_end;
use crate::partition::interval_start;
use crate::partition::is_power_of_two;
use crate::partition::Interval;
use crate::partition::InvalidPartition;
use fnv::FnvHashSet;
use vstd::prelude::*;

verus! {

/// Whether the string at `offset`, with the image loaded at `base`, lies at
/// an address below 2^32 that is one of `pointers`.
pub open spec fn collides(offset: u32, pointers: Set<u32>, base: u32) -> bool {
    offset + base <= 0xFFFF_FFFF && pointers.contains((offset + base) as u32)
}

/// The score of `base`: how many of `strings` collide with one of
/// `pointers` when the image is loaded at `base`.
pub open spec fn score(strings: Seq<u32>, pointers: Set<u32>, base: u32) -> nat
    decreases strings.len(),
{
    if strings.len() == 0 {
        0
    } else {
        score(strings.drop_last(), pointers, base) + if collides(strings.last(), pointers, base) {
            1nat
        } else {
            0nat
        }
    }
}

/// The `step`th candidate base address of an interval that begins at
/// `start`.
pub open spec fn candidate(start: u32, stride: u32, step: nat) -> int {
    start + step * stride
}

/// `found` is what a scan of the candidates from `start` to `end` finds:
/// each candidate with a score above zero, with that score, in ascending
/// order of address.
pub open spec fn is_scan_of(
    strings: Seq<u32>,
    pointers: Set<u32>,
    start: u32,
    end: u32,
    stride: u32,
    found: Seq<(usize, u32)>,
) -> bool {
    &&& forall|i: int|
        0 <= i < found.len() ==> {
            &&& (#[trigger] found[i]).0 == score(strings, pointers, found[i].1)
            &&& found[i].0 > 0
            &&& exists|step: nat| #[trigger] candidate(start, stride, step) == found[i].1
            &&& found[i].1 <= end
        }
    &&& forall|i: int, j: int| 0 <= i < j < found.len() ==> found[i].1 < found[j].1
    &&& forall|step: nat| #[trigger]
        candidate(start, stride, step) <= end && score(
            strings,
            pointers,
            candidate(start, stride, step) as u32,
        ) > 0 ==> found.contains(
            (
                score(strings, pointers, candidate(start, stride, step) as u32) as usize,
                candidate(start, stride, step) as u32,
            ),
        )
}

/// A score is at most the number of strings.
pub proof fn lemma_score_bound(strings: Seq<u32>, pointers: Set<u32>, base: u32)
    ensures
        score(strings, pointers, base) <= strings.len(),
    decreases strings.len(),
{
    if strings.len() > 0 {
        lemma_score_bound(strings.drop_last(), pointers, base);
    }
}

/// Where every string collides at `base`, the score of `base` is the number
/// of strings: the highest score that there is.
pub proof fn lemma_full_score(strings: Seq<u32>, pointers: Set<u32>, base: u32)
    requires
        forall|i: int| 0 <= i < strings.len() ==> collides(#[trigger] strings[i], pointers, base),
    ensures
        score(strings, pointers, base) == strings.len(),
    decreases strings.len(),
{
    if strings.len() > 0 {
        let rest = strings.drop_last();
        assert forall|i: int| 0 <= i < rest.len() implies collides(
            #[trigger] rest[i],
            pointers,
            base,
        ) by {
            assert(rest[i] == strings[i]);
        }
        lemma_full_score(rest, pointers, base);
        assert(strings.last() == strings[strings.len() - 1]);
    }
}

/// The score without the string at place `j`, and what that string adds.
proof fn lemma_score_remove(strings: Seq<u32>, pointers: Set<u32>, base: u32, j: int)
    requires
        0 <= j < strings.len(),
    ensures
        score(strings, pointers, base) == score(strings.remove(j), pointers, base) + if collides(
            strings[j],
            pointers,
            base,
        ) {
            1nat
        } else {
            0nat
        },
    decreases strings.len(),
{
    if j == strings.len() - 1 {
        assert(strings.remove(j) =~= strings.drop_last());
    } else {
        lemma_score_remove(strings.drop_last(), pointers, base, j);
        assert(strings.remove(j).drop_last() =~= strings.drop_last().remove(j));
        assert(strings.remove(j).last() == strings.last());
    }
}

/// The score depends on which strings there are, not on their order.
pub proof fn lemma_score_of_set(
    strings_a: Seq<u32>,
    strings_b: Seq<u32>,
    pointers: Set<u32>,
    base: u32,
)
    requires
        strings_a.no_duplicates(),
        strings_b.no_duplicates(),
        forall|v: u32| strings_a.contains(v) <==> strings_b.contains(v),
    ensures
        score(strings_a, pointers, base) == score(strings_b, pointers, base),
    decreases strings_a.len(),
{
    if strings_a.len() == 0 {
        if strings_b.len() > 0 {
            assert(strings_b.contains(strings_b[0]));
        }
    } else {
        let x = strings_a.last();
        assert(strings_a[strings_a.len() - 1] == x);
        assert(strings_a.contains(x));
        let j = choose|j: int| 0 <= j < strings_b.len() && strings_b[j] == x;
        let rest_a = strings_a.drop_last();
        let rest_b = strings_b.remove(j);
        assert forall|v: u32| rest_a.contains(v) <==> rest_b.contains(v) by {
            if rest_a.contains(v) {
                let i = choose|i: int| 0 <= i < rest_a.len() && rest_a[i] == v;
                assert(strings_a[i] == v);
                assert(strings_a.contains(v));
                let m = choose|m: int| 0 <= m < strings_b.len() && strings_b[m] == v;
                if m < j {
                    assert(rest_b[m] == v);
                } else {
                    assert(m != j);
                    assert(rest_b[m - 1] == v);
                }
            }
            if rest_b.contains(v) {
                let m = choose|m: int| 0 <= m < rest_b.len() && rest_b[m] == v;
                let at = if m < j {
                    m
                } else {
                    m + 1
                };
                assert(strings_b[at] == v);
                assert(strings_b.contains(v));
                let i = choose|i: int| 0 <= i < strings_a.len() && strings_a[i] == v;
                assert(i != strings_a.len() - 1);
                assert(rest_a[i] == v);
            }
        }
        lemma_score_of_set(rest_a, rest_b, pointers, base);
        lemma_score_remove(strings_b, pointers, base, j);
    }
}

/// What one scan finds, another scan of the same interval finds too.
proof fn lemma_scan_member(
    strings: Seq<u32>,
    pointers: Set<u32>,
    start: u32,
    end: u32,
    stride: u32,
    found_a: Seq<(usize, u32)>,
    found_b: Seq<(usize, u32)>,
    i: int,
)
    requires
        is_scan_of(strings, pointers, start, end, stride, found_a),
        is_scan_of(strings, pointers, start, end, stride, found_b),
        0 <= i < found_a.len(),
    ensures
        found_b.contains(found_a[i]),
{
    let entry = found_a[i];
    let step = choose|step: nat| #[trigger] candidate(start, stride, step) == entry.1;
    assert(candidate(start, stride, step) <= end);
    assert(found_b.contains(
        (
            score(strings, pointers, candidate(start, stride, step) as u32) as usize,
            candidate(start, stride, step) as u32,
        ),
    ));
}

/// Two scans of the same interval agree in their first `k` entries.
proof fn lemma_scans_agree(
    strings: Seq<u32>,
    pointers: Set<u32>,
    start: u32,
    end: u32,
    stride: u32,
    found_a: Seq<(usize, u32)>,
    found_b: Seq<(usize, u32)>,
    k: int,
)
    requires
        is_scan_of(strings, pointers, start, end, stride, found_a),
        is_scan_of(strings, pointers, start, end, stride, found_b),
        0 <= k <= found_a.len(),
        k <= found_b.len(),
    ensures
        found_a.take(k) == found_b.take(k),
    decreases k,
{
    if k == 0 {
        assert(found_a.take(0) =~= found_b.take(0));
    } else {
        let i = k - 1;
        lemma_scans_agree(strings, pointers, start, end, stride, found_a, found_b, i);
        lemma_scan_member(strings, pointers, start, end, stride, found_a, found_b, i);
        lemma_scan_member(strings, pointers, start, end, stride, found_b, found_a, i);
        let j = choose|j: int| 0 <= j < found_b.len() && found_b[j] == found_a[i];
        let m = choose|m: int| 0 <= m < found_a.len() && found_a[m] == found_b[i];
        if j < i {
            assert(found_b.take(i)[j] == found_a.take(i)[j]);
            assert(found_a[j].1 < found_a[i].1);
        }
        if m < i {
            assert(found_b.take(i)[m] == found_a.take(i)[m]);
            assert(found_b[m].1 < found_b[i].1);
        }
        if j > i {
            assert(found_b[i].1 < found_b[j].1);
            if m > i {
                assert(found_a[i].1 < found_a[m].1);
            }
        }
        assert(found_a[i] == found_b[i]);
        assert(found_a.take(k) =~= found_a.take(i).push(found_a[i]));
        assert(found_b.take(k) =~= found_b.take(i).push(found_b[i]));
    }
}

/// A scan has one outcome: two lists that both are what a scan of the same
/// interval finds are the same list.
pub proof fn lemma_scan_is_determined(
    strings: Seq<u32>,
    pointers: Set<u32>,
    start: u32,
    end: u32,
    stride: u32,
    found_a: Seq<(usize, u32)>,
    found_b: Seq<(usize, u32)>,
)
    requires
        is_scan_of(strings, pointers, start, end, stride, found_a),
        is_scan_of(strings, pointers, start, end, stride, found_b),
    ensures
        found_a == found_b,
{
    let n = if found_a.len() <= found_b.len() {
        found_a.len() as int
    } else {
        found_b.len() as int
    };
    lemma_scans_agree(strings, pointers, start, end, stride, found_a, found_b, n);
    if found_a.len() < found_b.len() {
        lemma_scan_member(strings, pointers, start, end, stride, found_b, found_a, n);
        let j = choose|j: int| 0 <= j < found_a.len() && found_a[j] == found_b[n];
        assert(found_a.take(n)[j] == found_b.take(n)[j]);
        assert(found_b[j].1 < found_b[n].1);
    }
    if found_b.len() < found_a.len() {
        lemma_scan_member(strings, pointers, start, end, stride, found_a, found_b, n);
        let j = choose|j: int| 0 <= j < found_b.len() && found_b[j] == found_a[n];
        assert(found_a.take(n)[j] == found_b.take(n)[j]);
        assert(found_a[j].1 < found_a[n].1);
    }
    assert(found_a.take(n) =~= found_a);
    assert(found_b.take(n) =~= found_b);
}

/// What a scan finds depends on which strings there are, not on their
/// order.
pub proof fn lemma_scan_of_same_strings(
    strings_a: Seq<u32>,
    strings_b: Seq<u32>,
    pointers: Set<u32>,
    start: u32,
    end: u32,
    stride: u32,
    found: Seq<(usize, u32)>,
)
    requires
        strings_a.no_duplicates(),
        strings_b.no_duplicates(),
        forall|v: u32| strings_a.contains(v) <==> strings_b.contains(v),
        is_scan_of(strings_a, pointers, start, end, stride, found),
    ensures
        is_scan_of(strings_b, pointers, start, end, stride, found),
{
    assert forall|base: u32| #[trigger]
        score(strings_a, pointers, base) == score(strings_b, pointers, base) by {
        lemma_score_of_set(strings_a, strings_b, pointers, base);
    }
}

/// An address at or above `start` is a candidate where both are multiples
/// of the stride.
pub proof fn lemma_aligned_is_candidate(start: u32, stride: u32, base: u32)
    requires
        stride >= 1,
        start <= base,
        start % stride == 0,
        base % stride == 0,
    ensures
        exists|step: nat| #[trigger] candidate(start, stride, step) == base,
{
    let s = stride as int;
    vstd::arithmetic::div_mod::lemma_fundamental_div_mod(base as int, s);
    vstd::arithmetic::div_mod::lemma_fundamental_div_mod(start as int, s);
    vstd::arithmetic::div_mod::lemma_div_is_ordered(start as int, base as int, s);
    let qb = base as int / s;
    let qs = start as int / s;
    let step = (qb - qs) as nat;
    assert(start + step * stride == base) by (nonlinear_arith)
        requires
            base == s * qb,
            start == s * qs,
            step == qb - qs,
            stride == s,
    ;
    assert(candidate(start, stride, step) == base);
}

/// A score is above zero exactly where some string collides.
pub proof fn lemma_score_positive(strings: Seq<u32>, pointers: Set<u32>, base: u32)
    ensures
        score(strings, pointers, base) > 0 <==> exists|i: int|
            0 <= i < strings.len() && collides(#[trigger] strings[i], pointers, base),
    decreases strings.len(),
{
    if strings.len() > 0 {
        let rest = strings.drop_last();
        lemma_score_positive(rest, pointers, base);
        if score(strings, pointers, base) > 0 {
            if collides(strings.last(), pointers, base) {
                assert(collides(strings[strings.len() - 1], pointers, base));
            } else {
                let i = choose|i: int|
                    0 <= i < rest.len() && collides(#[trigger] rest[i], pointers, base);
                assert(collides(strings[i], pointers, base));
            }
        }
        if exists|i: int|
            0 <= i < strings.len() && collides(#[trigger] strings[i], pointers, base) {
            let i = choose|i: int|
                0 <= i < strings.len() && collides(#[trigger] strings[i], pointers, base);
            if i < rest.len() {
                assert(collides(rest[i], pointers, base));
            }
        }
    }
}

/// A listing of a set is as long as the set is large.
pub proof fn lemma_listing_len(items: Seq<u32>, set: Set<u32>)
    requires
        is_listing(items, set),
    ensures
        set.finite(),
        set.len() == items.len(),
{
    items.unique_seq_to_set();
    vstd::seq_lib::seq_to_set_is_finite(items);
    assert(items.to_set() =~= set);
}

/// Later candidates lie at higher addresses.
pub proof fn lemma_candidate_order(start: u32, stride: u32, a: nat, b: nat)
    requires
        a <= b,
    ensures
        candidate(start, stride, a) <= candidate(start, stride, b),
{
    assert(a * stride <= b * stride) by (nonlinear_arith)
        requires
            a <= b,
            stride >= 0,
    ;
}

/// The score of `base`.
pub fn score_at(strings: &Vec<u32>, pointers: &FnvHashSet<u32>, base: u32) -> (count: usize)
    ensures
        count == score(strings@, pointers@, base),
{
    let mut count: usize = 0;
    let mut i: usize = 0;
    while i < strings.len()
        invariant
            i <= strings.len(),
            count <= i,
            count == score(strings@.take(i as int), pointers@, base),
        decreases strings.len() - i,
    {
        proof {
            assert(strings@.take(i + 1).drop_last() =~= strings@.take(i as int));
        }
        let offset: u32 = strings[i];
        if offset <= 0xFFFF_FFFFu32 - base {
            if set_contains(pointers, offset + base) {
                count = count + 1;
            }
        }
        i = i + 1;
    }
    proof {
        assert(strings@.take(i as int) =~= strings@);
    }
    count
}

/// Scans the interval of worker `scan_interval` for the string offsets
/// `items`: every candidate base address from its lower bound to its upper
/// bound, `config.offset` apart, whose score is above zero, with its score.
pub fn scan_worker(
    config: &Config,
    items: &Vec<u32>,
    pointers: &FnvHashSet<u32>,
    scan_interval: usize,
) -> (r: Result<Vec<(usize, u32)>, InvalidPartition>)
    ensures
        scan_interval >= config.threads ==> r == Err::<Vec<(usize, u32)>, InvalidPartition>(
            InvalidPartition::Index,
        ),
        scan_interval < config.threads && !is_power_of_two(config.offset as nat) ==> r == Err::<
            Vec<(usize, u32)>,
            InvalidPartition,
        >(InvalidPartition::Stride),
        scan_interval < config.threads && is_power_of_two(config.offset as nat) ==> r is Ok
            && is_scan_of(
            items@,
            pointers@,
            interval_start(scan_interval as nat, config.threads as nat, config.offset as nat) as u32,
            interval_end(scan_interval as nat, config.threads as nat, config.offset as nat) as u32,
            config.offset,
            r->Ok_0@,
        ),
{
    let interval = match Interval::get_range(scan_interval, config.threads, config.offset) {
        Ok(interval) => interval,
        Err(e) => {
            return Err(e);
        },
    };
    Ok(scan_interval_of(items, pointers, interval.start_addr, interval.end_addr, config.offset))
}

/// `found` is what a scan of the candidates from `start` to `end` finds for
/// the set `strings` of string offsets.
pub open spec fn is_scan_of_set(
    strings: Set<u32>,
    pointers: Set<u32>,
    start: u32,
    end: u32,
    stride: u32,
    found: Seq<(usize, u32)>,
) -> bool {
    exists|items: Seq<u32>|
        is_listing(items, strings) && #[trigger] is_scan_of(
            items,
            pointers,
            start,
            end,
            stride,
            found,
        )
}

/// Scans the interval of worker `scan_interval`: every candidate base
/// address from its lower bound to its upper bound, `config.offset` apart,
/// whose score is above zero, with its score.
pub fn find_matches(
    config: &Config,
    strings: &FnvHashSet<u32>,
    pointers: &FnvHashSet<u32>,
    scan_interval: usize,
) -> (r: Result<Vec<(usize, u32)>, InvalidPartition>)
    ensures
        scan_interval >= config.threads ==> r == Err::<Vec<(usize, u32)>, InvalidPartition>(
            InvalidPartition::Index,
        ),
        scan_interval < config.threads && !is_power_of_two(config.offset as nat) ==> r == Err::<
            Vec<(usize, u32)>,
            InvalidPartition,
        >(InvalidPartition::Stride),
        scan_interval < config.threads && is_power_of_two(config.offset as nat) ==> r is Ok
            && is_scan_of_set(
            strings@,
            pointers@,
            interval_start(scan_interval as nat, config.threads as nat, config.offset as nat) as u32,
            interval_end(scan_interval as nat, config.threads as nat, config.offset as nat) as u32,
            config.offset,
            r->Ok_0@,
        ),
{
    let items = set_items(strings);
    scan_worker(config, &items, pointers, scan_interval)
}

/// One step of a scan: lists the candidate `current` in `found` where its
/// score is above zero, and gives the candidate after it, where that one is
/// not above `end`.
pub fn scan_step(
    strings: &Vec<u32>,
    pointers: &FnvHashSet<u32>,
    current: u32,
    end: u32,
    stride: u32,
    found: &mut Vec<(usize, u32)>,
) -> (next: Option<u32>)
    ensures
        final(found)@ == if score(strings@, pointers@, current) > 0 {
            old(found)@.push((score(strings@, pointers@, current) as usize, current))
        } else {
            old(found)@
        },
        next == if current + stride <= end {
            Some((current + stride) as u32)
        } else {
            None::<u32>
        },
        score(strings@, pointers@, current) <= usize::MAX,
{
    let count = score_at(strings, pointers, current);
    if count > 0 {
        found.push((count, current));
    }
    if current <= 0xFFFF_FFFFu32 - stride && current + stride <= end {
        Some(current + stride)
    } else {
        None
    }
}

/// Scans the candidates from `start` to `end`, `stride` apart.
pub fn scan_interval_of(
    strings: &Vec<u32>,
    pointers: &FnvHashSet<u32>,
    start: u32,
    end: u32,
    stride: u32,
) -> (found: Vec<(usize, u32)>)
    requires
        stride >= 1,
    ensures
        is_scan_of(strings@, pointers@, start, end, stride, found@),
{
    let mut found: Vec<(usize, u32)> = Vec::new();
    let mut current: u32 = start;
    let mut more: bool = start <= end;
    let ghost mut done: nat = 0;
    proof {
        assert(candidate(start, stride, 0) == start) by (nonlinear_arith);
    }
    while more
        invariant
            stride >= 1,
            more ==> current == candidate(start, stride, done) && current <= end,
            !more ==> candidate(start, stride, done) > end,
            forall|i: int|
                0 <= i < found@.len() ==> {
                    &&& (#[trigger] found@[i]).0 == score(strings@, pointers@, found@[i].1)
                    &&& found@[i].0 > 0
                    &&& exists|step: nat| #[trigger] candidate(start, stride, step) == found@[i].1
                    &&& found@[i].1 <= end
                    &&& found@[i].1 < candidate(start, stride, done)
                },
            forall|i: int, j: int| 0 <= i < j < found@.len() ==> found@[i].1 < found@[j].1,
            forall|step: nat| #[trigger]
                candidate(start, stride, step) <= end && step < done && score(
                    strings@,
                    pointers@,
                    candidate(start, stride, step) as u32,
                ) > 0 ==> found@.contains(
                    (
                        score(strings@, pointers@, candidate(start, stride, step) as u32) as usize,
                        candidate(start, stride, step) as u32,
                    ),
                ),
        decreases 0x1_0000_0000 - current + if more { 1int } else { 0int },
    {
        let ghost before = found@;
        let ghost here = current;
        let next = scan_step(strings, pointers, current, end, stride, &mut found);
        proof {
            assert(candidate(start, stride, done + 1) == candidate(start, stride, done) + stride)
                by (nonlinear_arith);
            let count = score(strings@, pointers@, here);
            if count > 0 {
                assert(found@ == before.push((count as usize, here)));
                assert(found@[before.len() as int] == (count as usize, here));
                assert(candidate(start, stride, done) == found@[before.len() as int].1);
                assert forall|i: int| 0 <= i < before.len() implies found@[i] == before[i] by {}
                assert forall|step: nat| #[trigger]
                    candidate(start, stride, step) <= end && step < done + 1 && score(
                        strings@,
                        pointers@,
                        candidate(start, stride, step) as u32,
                    ) > 0 implies found@.contains(
                    (
                        score(strings@, pointers@, candidate(start, stride, step) as u32) as usize,
                        candidate(start, stride, step) as u32,
                    ),
                ) by {
                    let entry = (
                        score(strings@, pointers@, candidate(start, stride, step) as u32) as usize,
                        candidate(start, stride, step) as u32,
                    );
                    if step < done {
                        assert(before.contains(entry));
                        let i = choose|i: int| 0 <= i < before.len() && before[i] == entry;
                        assert(found@[i] == entry);
                    } else {
                        assert(found@[before.len() as int] == entry);
                    }
                }
            }
        }
        match next {
            Some(following) => {
                current = following;
            },
            None => {
                more = false;
            },
        }
        proof {
            done = done + 1;
        }
    }
    proof {
        assert forall|step: nat| #[trigger]
            candidate(start, stride, step) <= end implies step < done by {
            if step >= done {
                lemma_candidate_order(start, stride, done, step);
            }
        }
    }
    found
}

} // verus!
