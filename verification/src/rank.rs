//! Merging the candidates of all workers into one ranked list.

use vstd::prelude::*;

verus! {

/// A candidate base address with its score: `(score, address)`.
pub type ScoredCandidate = (usize, u32);

/// `a` ranks at least as high as `b`: its score is higher, or the scores are
/// equal and its address is not lower.
pub open spec fn ranks_at_least(a: ScoredCandidate, b: ScoredCandidate) -> bool {
    a.0 > b.0 || (a.0 == b.0 && a.1 >= b.1)
}

/// The candidates of all workers, one worker after the other.
pub open spec fn concat_all(parts: Seq<Vec<ScoredCandidate>>) -> Seq<ScoredCandidate>
    decreases parts.len(),
{
    if parts.len() == 0 {
        Seq::empty()
    } else {
        concat_all(parts.drop_last()) + parts.last()@
    }
}

/// `top` is the ranked list of `all`: its `max_matches` highest-ranking
/// entries (all of them, where it has no more), the highest first.
pub open spec fn is_top_of(
    all: Seq<ScoredCandidate>,
    max_matches: nat,
    top: Seq<ScoredCandidate>,
) -> bool {
    &&& top.len() == if max_matches <= all.len() {
        max_matches
    } else {
        all.len()
    }
    &&& forall|i: int, j: int| 0 <= i < j < top.len() ==> ranks_at_least(top[i], top[j])
    &&& top.to_multiset().subset_of(all.to_multiset())
    &&& forall|x: ScoredCandidate, i: int|
        #![trigger top[i], all.to_multiset().count(x)]
        all.to_multiset().count(x) > top.to_multiset().count(x) && 0 <= i < top.len()
            ==> ranks_at_least(top[i], x)
}

/// The candidates of all workers are those that some worker holds.
pub proof fn lemma_concat_holds_parts(parts: Seq<Vec<ScoredCandidate>>, x: ScoredCandidate)
    ensures
        concat_all(parts).contains(x) <==> exists|i: int|
            0 <= i < parts.len() && (#[trigger] parts[i])@.contains(x),
    decreases parts.len(),
{
    if parts.len() > 0 {
        let rest = parts.drop_last();
        let last = parts.last()@;
        let all = concat_all(parts);
        lemma_concat_holds_parts(rest, x);
        assert(all == concat_all(rest) + last);
        if all.contains(x) {
            let j = choose|j: int| 0 <= j < all.len() && all[j] == x;
            if j < concat_all(rest).len() {
                assert(concat_all(rest)[j] == x);
                assert(concat_all(rest).contains(x));
                let i = choose|i: int| 0 <= i < rest.len() && (#[trigger] rest[i])@.contains(x);
                assert(parts[i]@.contains(x));
            } else {
                assert(last[j - concat_all(rest).len()] == x);
                assert(parts[parts.len() - 1]@.contains(x));
            }
        }
        if exists|i: int| 0 <= i < parts.len() && (#[trigger] parts[i])@.contains(x) {
            let i = choose|i: int| 0 <= i < parts.len() && (#[trigger] parts[i])@.contains(x);
            if i < rest.len() {
                assert(rest[i]@.contains(x));
                assert(concat_all(rest).contains(x));
                let j = choose|j: int| 0 <= j < concat_all(rest).len() && concat_all(rest)[j] == x;
                assert(all[j] == x);
            } else {
                let j = choose|j: int| 0 <= j < last.len() && last[j] == x;
                assert(all[concat_all(rest).len() + j] == x);
            }
        }
    }
}

/// The first entry of a ranked list ranks at least as high as every
/// candidate, and a candidate that the list leaves out ranks no higher than
/// any entry of the list.
pub proof fn lemma_top_is_highest(
    all: Seq<ScoredCandidate>,
    max_matches: nat,
    top: Seq<ScoredCandidate>,
    x: ScoredCandidate,
)
    requires
        is_top_of(all, max_matches, top),
        all.contains(x),
    ensures
        top.len() > 0 ==> ranks_at_least(top[0], x),
        !top.contains(x) ==> forall|i: int| 0 <= i < top.len() ==> ranks_at_least(top[i], x),
        max_matches > 0 ==> top.len() > 0,
{
    all.to_multiset_ensures();
    top.to_multiset_ensures();
    if all.to_multiset().count(x) > top.to_multiset().count(x) {
    } else {
        assert(top.contains(x));
        let j = choose|j: int| 0 <= j < top.len() && top[j] == x;
        if j > 0 {
            assert(ranks_at_least(top[0], top[j]));
        }
    }
}

/// A ranked list that leaves a candidate out is full.
pub proof fn lemma_left_out_means_full(
    all: Seq<ScoredCandidate>,
    max_matches: nat,
    top: Seq<ScoredCandidate>,
    x: ScoredCandidate,
)
    requires
        is_top_of(all, max_matches, top),
        all.contains(x),
        !top.contains(x),
    ensures
        top.len() == max_matches,
        top.len() < all.len(),
{
    all.to_multiset_ensures();
    top.to_multiset_ensures();
    let rest = all.to_multiset().sub(top.to_multiset());
    vstd::multiset::axiom_multiset_sub(all.to_multiset(), top.to_multiset(), x);
    vstd::multiset::axiom_len_sub(all.to_multiset(), top.to_multiset());
    vstd::multiset::axiom_count_le_len(rest, x);
}

/// Where one candidate has the highest score of all, the ranked list of at
/// least one entry begins with that score.
pub proof fn lemma_highest_score_comes_first(
    all: Seq<ScoredCandidate>,
    max_matches: nat,
    top: Seq<ScoredCandidate>,
    best: ScoredCandidate,
)
    requires
        is_top_of(all, max_matches, top),
        max_matches > 0,
        all.contains(best),
        forall|i: int| 0 <= i < all.len() ==> (#[trigger] all[i]).0 <= best.0,
    ensures
        top.len() > 0,
        top[0].0 == best.0,
{
    lemma_top_is_highest(all, max_matches, top, best);
    all.to_multiset_ensures();
    top.to_multiset_ensures();
    assert(top.contains(top[0]));
    assert(top.to_multiset().count(top[0]) <= all.to_multiset().count(top[0]));
    assert(all.contains(top[0]));
    let j = choose|j: int| 0 <= j < all.len() && all[j] == top[0];
    assert(all[j].0 <= best.0);
}

/// How often `x` occurs in `s`: before place `i`, and from there on.
proof fn lemma_count_split(s: Seq<ScoredCandidate>, i: int, x: ScoredCandidate)
    requires
        0 <= i <= s.len(),
    ensures
        s.to_multiset().count(x) == s.take(i).to_multiset().count(x) + s.skip(i).to_multiset().count(
            x,
        ),
{
    assert(s =~= s.take(i) + s.skip(i));
    vstd::seq_lib::lemma_multiset_commutative(s.take(i), s.skip(i));
}

/// Where a ranked list `top` and a selection `other` of the same candidates
/// agree before place `i`, the entry of `top` at `i` ranks at least as high
/// as that of `other`.
proof fn lemma_not_outranked(
    all: Seq<ScoredCandidate>,
    max_matches: nat,
    top: Seq<ScoredCandidate>,
    other: Seq<ScoredCandidate>,
    i: int,
)
    requires
        is_top_of(all, max_matches, top),
        other.to_multiset().subset_of(all.to_multiset()),
        0 <= i < top.len(),
        i < other.len(),
        top.take(i) == other.take(i),
    ensures
        ranks_at_least(top[i], other[i]),
{
    let x = other[i];
    if !ranks_at_least(top[i], x) {
        top.skip(i).to_multiset_ensures();
        other.skip(i).to_multiset_ensures();
        if top.skip(i).contains(x) {
            let j = choose|j: int| 0 <= j < top.skip(i).len() && top.skip(i)[j] == x;
            assert(top[i + j] == x);
            if j > 0 {
                assert(ranks_at_least(top[i], top[i + j]));
            }
        }
        assert(other.skip(i)[0] == x);
        assert(other.skip(i).contains(x));
        lemma_count_split(top, i, x);
        lemma_count_split(other, i, x);
        assert(other.to_multiset().count(x) <= all.to_multiset().count(x));
        assert(all.to_multiset().count(x) > top.to_multiset().count(x));
        assert(ranks_at_least(top[i], x));
    }
}

/// Two ranked lists of the same candidates agree in their first `k` entries.
proof fn lemma_ranked_agree(
    all_a: Seq<ScoredCandidate>,
    all_b: Seq<ScoredCandidate>,
    max_matches: nat,
    top_a: Seq<ScoredCandidate>,
    top_b: Seq<ScoredCandidate>,
    k: int,
)
    requires
        all_a.to_multiset() == all_b.to_multiset(),
        is_top_of(all_a, max_matches, top_a),
        is_top_of(all_b, max_matches, top_b),
        0 <= k <= top_a.len(),
    ensures
        top_a.len() == top_b.len(),
        top_a.take(k) == top_b.take(k),
    decreases k,
{
    all_a.to_multiset_ensures();
    all_b.to_multiset_ensures();
    if k == 0 {
        assert(top_a.take(0) =~= top_b.take(0));
    } else {
        let i = k - 1;
        lemma_ranked_agree(all_a, all_b, max_matches, top_a, top_b, i);
        lemma_not_outranked(all_a, max_matches, top_a, top_b, i);
        lemma_not_outranked(all_b, max_matches, top_b, top_a, i);
        assert(top_a[i] == top_b[i]);
        assert(top_a.take(k) =~= top_a.take(i).push(top_a[i]));
        assert(top_b.take(k) =~= top_b.take(i).push(top_b[i]));
    }
}

/// The ranked list depends only on which candidates there are and how often
/// each occurs, not on the order in which the workers hand them in.
pub proof fn lemma_ranking_is_determined(
    all_a: Seq<ScoredCandidate>,
    all_b: Seq<ScoredCandidate>,
    max_matches: nat,
    top_a: Seq<ScoredCandidate>,
    top_b: Seq<ScoredCandidate>,
)
    requires
        all_a.to_multiset() == all_b.to_multiset(),
        is_top_of(all_a, max_matches, top_a),
        is_top_of(all_b, max_matches, top_b),
    ensures
        top_a == top_b,
{
    lemma_ranked_agree(all_a, all_b, max_matches, top_a, top_b, top_a.len() as int);
    assert(top_a.take(top_a.len() as int) =~= top_a);
    assert(top_b.take(top_b.len() as int) =~= top_b);
}

/// Says whether `a` ranks at least as high as `b`.
pub fn outranks(a: ScoredCandidate, b: ScoredCandidate) -> (r: bool)
    ensures
        r == ranks_at_least(a, b),
{
    a.0 > b.0 || (a.0 == b.0 && a.1 >= b.1)
}

/// Puts the candidates of all workers into one list.
pub fn merge_results(parts: &Vec<Vec<ScoredCandidate>>) -> (merged: Vec<ScoredCandidate>)
    ensures
        merged@ == concat_all(parts@),
{
    let mut merged: Vec<ScoredCandidate> = Vec::new();
    let mut i: usize = 0;
    while i < parts.len()
        invariant
            i <= parts.len(),
            merged@ == concat_all(parts@.take(i as int)),
        decreases parts.len() - i,
    {
        let part = &parts[i];
        let ghost before = merged@;
        let mut j: usize = 0;
        while j < part.len()
            invariant
                j <= part.len(),
                merged@ == before + part@.take(j as int),
            decreases part.len() - j,
        {
            merged.push(part[j]);
            proof {
                assert(part@.take(j + 1) =~= part@.take(j as int).push(part@[j as int]));
                assert(merged@ =~= before + part@.take(j + 1));
            }
            j = j + 1;
        }
        proof {
            assert(part@.take(j as int) =~= part@);
            assert(parts@.take(i + 1).drop_last() =~= parts@.take(i as int));
            assert(parts@.take(i + 1).last() == parts@[i as int]);
        }
        i = i + 1;
    }
    proof {
        assert(parts@.take(i as int) =~= parts@);
    }
    merged
}

/// The ranked list of `candidates`: its `max_matches` highest-ranking
/// entries, the highest first.
pub fn top_matches(candidates: Vec<ScoredCandidate>, max_matches: usize) -> (top: Vec<
    ScoredCandidate,
>)
    ensures
        is_top_of(candidates@, max_matches as nat, top@),
{
    let ghost all = candidates@;
    let mut pool = candidates;
    let mut top: Vec<ScoredCandidate> = Vec::new();
    proof {
        top@.to_multiset_ensures();
        vstd::multiset::lemma_multiset_empty_len(top@.to_multiset());
    }
    while top.len() < max_matches && pool.len() > 0
        invariant
            top@.len() + pool@.len() == all.len(),
            top@.len() <= max_matches,
            top@.to_multiset().add(pool@.to_multiset()) =~= all.to_multiset(),
            forall|i: int, j: int| 0 <= i < j < top@.len() ==> ranks_at_least(top@[i], top@[j]),
            forall|i: int, j: int|
                0 <= i < top@.len() && 0 <= j < pool@.len() ==> ranks_at_least(top@[i], pool@[j]),
        decreases pool@.len(),
    {
        let mut best: usize = 0;
        let mut k: usize = 1;
        while k < pool.len()
            invariant
                best < pool.len(),
                1 <= k <= pool.len(),
                forall|j: int| 0 <= j < k ==> ranks_at_least(pool@[best as int], pool@[j]),
            decreases pool.len() - k,
        {
            if !outranks(pool[best], pool[k]) {
                best = k;
            }
            k = k + 1;
        }
        let ghost old_pool = pool@;
        let ghost old_top = top@;
        let entry = pool.remove(best);
        top.push(entry);
        proof {
            old_pool.to_multiset_ensures();
            old_top.to_multiset_ensures();
            assert(pool@.to_multiset() =~= old_pool.to_multiset().remove(entry));
            assert(top@.to_multiset() =~= old_top.to_multiset().insert(entry));
            assert(old_pool.contains(entry));
            assert(old_pool.to_multiset().count(entry) > 0);
            assert(top@.to_multiset().add(pool@.to_multiset()) =~= all.to_multiset());
        }
    }
    proof {
        top@.to_multiset_ensures();
        pool@.to_multiset_ensures();
        assert forall|x: ScoredCandidate, i: int|
            #![trigger top@[i], all.to_multiset().count(x)]
            all.to_multiset().count(x) > top@.to_multiset().count(x) && 0 <= i < top@.len()
                implies ranks_at_least(top@[i], x) by {
            assert(pool@.to_multiset().count(x) > 0);
            assert(pool@.contains(x));
        }
    }
    top
}

/// The ranked list of the candidates of all workers.
pub fn rank_results(parts: &Vec<Vec<ScoredCandidate>>, max_matches: usize) -> (top: Vec<
    ScoredCandidate,
>)
    ensures
        is_top_of(concat_all(parts@), max_matches as nat, top@),
{
    top_matches(merge_results(parts), max_matches)
}

} // verus!
