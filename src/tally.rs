use vstd::prelude::*;

use crate::tossable::CoinFace;

verus! {

/// How many times `v` occurs in `s`.
pub open spec fn occurrences<T>(s: Seq<T>, v: T) -> nat
    decreases s.len(),
{
    if s.len() == 0 {
        0
    } else {
        occurrences(s.drop_last(), v) + if s.last() == v {
            1nat
        } else {
            0nat
        }
    }
}

/// The sum of a sequence of counts.
pub open spec fn total(c: Seq<int>) -> int
    decreases c.len(),
{
    if c.len() == 0 {
        0
    } else {
        total(c.drop_last()) + c.last()
    }
}

/// The tally of die results over the faces `min..=max`: entry `j` counts the
/// results equal to `min + j`.
pub open spec fn dice_tally(min: u64, max: u64, results: Seq<u64>) -> Seq<int> {
    Seq::new((max - min + 1) as nat, |j: int| occurrences(results, (min + j) as u64) as int)
}

/// Every result lies on a face of the die `min..=max`.
pub open spec fn all_within(min: u64, max: u64, results: Seq<u64>) -> bool {
    forall|k: int| 0 <= k < results.len() ==> min <= #[trigger] results[k] <= max
}

/// The number of heads and the number of tails among `results`.
pub fn coin_counts(results: &Vec<CoinFace>) -> (r: (usize, usize))
    ensures
        r.0 == occurrences(results@, CoinFace::Heads),
        r.1 == occurrences(results@, CoinFace::Tails),
        r.0 + r.1 == results@.len(),
{
    let mut heads: usize = 0;
    let mut tails: usize = 0;
    let mut i: usize = 0;
    while i < results.len()
        invariant
            i <= results@.len(),
            heads == occurrences(results@.take(i as int), CoinFace::Heads),
            tails == occurrences(results@.take(i as int), CoinFace::Tails),
            heads + tails == i,
        decreases results@.len() - i,
    {
        assert(results@.take(i + 1).drop_last() == results@.take(i as int));
        match results[i] {
            CoinFace::Heads => heads = heads + 1,
            CoinFace::Tails => tails = tails + 1,
        }
        i = i + 1;
    }
    assert(results@.take(i as int) == results@);
    (heads, tails)
}

proof fn lemma_occurrences_bound<T>(s: Seq<T>, v: T)
    ensures
        occurrences(s, v) <= s.len(),
    decreases s.len(),
{
    if s.len() > 0 {
        lemma_occurrences_bound(s.drop_last(), v);
    }
}

proof fn lemma_total_bump(c: Seq<int>, j: int)
    requires
        0 <= j < c.len(),
    ensures
        total(c.update(j, c[j] + 1)) == total(c) + 1,
    decreases c.len(),
{
    let u = c.update(j, c[j] + 1);
    if j == c.len() - 1 {
        assert(u.drop_last() == c.drop_last());
    } else {
        assert(u.drop_last() == c.drop_last().update(j, c[j] + 1));
        lemma_total_bump(c.drop_last(), j);
    }
}

proof fn lemma_total_zeros(n: nat)
    ensures
        total(Seq::new(n, |j: int| 0int)) == 0,
    decreases n,
{
    if n > 0 {
        assert(Seq::new(n, |j: int| 0int).drop_last() == Seq::new((n - 1) as nat, |j: int| 0int));
        lemma_total_zeros((n - 1) as nat);
    }
}

/// Tallying die results loses none: over the faces of the die, the counts
/// add up to the number of results.
pub proof fn lemma_dice_tally_total(min: u64, max: u64, results: Seq<u64>)
    requires
        min < max,
        all_within(min, max, results),
    ensures
        total(dice_tally(min, max, results)) == results.len(),
    decreases results.len(),
{
    if results.len() == 0 {
        assert(dice_tally(min, max, results) == Seq::new((max - min + 1) as nat, |j: int| 0int));
        lemma_total_zeros((max - min + 1) as nat);
    } else {
        let front = results.drop_last();
        let v = results.last();
        assert(all_within(min, max, front)) by {
            assert forall|k: int| 0 <= k < front.len() implies min <= #[trigger] front[k] <= max by {
                assert(front[k] == results[k]);
            }
        }
        lemma_dice_tally_total(min, max, front);
        let before = dice_tally(min, max, front);
        let j = v - min;
        assert(dice_tally(min, max, results) == before.update(j, before[j] + 1));
        lemma_total_bump(before, j);
    }
}

/// How many times each face of the die `min..=max` came up: entry `j`
/// counts the results equal to `min + j`.
pub fn dice_counts(min: u64, max: u64, results: &Vec<u64>) -> (r: Vec<u64>)
    requires
        min < max,
        max - min < usize::MAX,
        all_within(min, max, results@),
    ensures
        r@.len() == max - min + 1,
        forall|j: int| 0 <= j < r@.len() ==> r@[j] == #[trigger] dice_tally(min, max, results@)[j],
{
    let size = (max - min) as usize + 1;
    let mut counts: Vec<u64> = Vec::new();
    while counts.len() < size
        invariant
            counts@.len() <= size,
            forall|j: int| 0 <= j < counts@.len() ==> counts@[j] == 0,
        decreases size - counts@.len(),
    {
        counts.push(0);
    }
    let mut i: usize = 0;
    while i < results.len()
        invariant
            i <= results@.len(),
            size == max - min + 1,
            counts@.len() == size,
            all_within(min, max, results@),
            forall|j: int|
                0 <= j < size ==> counts@[j] == #[trigger] occurrences(
                    results@.take(i as int),
                    (min + j) as u64,
                ),
        decreases results@.len() - i,
    {
        let v = results[i];
        let idx = (v - min) as usize;
        proof {
            lemma_occurrences_bound(results@.take(i as int), v);
            assert(counts@[idx as int] == occurrences(results@.take(i as int), (min + idx) as u64));
        }
        counts.set(idx, counts[idx] + 1);
        proof {
            let now = results@.take(i + 1);
            assert(now.drop_last() == results@.take(i as int));
            assert forall|j: int| 0 <= j < size implies counts@[j] == #[trigger] occurrences(
                now,
                (min + j) as u64,
            ) by {
                assert(occurrences(now, (min + j) as u64) == occurrences(
                    results@.take(i as int),
                    (min + j) as u64,
                ) + if v == (min + j) as u64 {
                    1nat
                } else {
                    0nat
                });
            }
        }
        i = i + 1;
    }
    assert(results@.take(i as int) == results@);
    counts
}

proof fn lemma_occurrence_found<T>(s: Seq<T>, v: T)
    requires
        occurrences(s, v) > 0,
    ensures
        exists|m: int| 0 <= m < s.len() && s[m] == v,
    decreases s.len(),
{
    if s.last() != v {
        lemma_occurrence_found(s.drop_last(), v);
        let m = choose|m: int| 0 <= m < s.drop_last().len() && s.drop_last()[m] == v;
        assert(s[m] == v);
    }
}

/// The text of each string in `s`.
pub open spec fn texts(s: Seq<String>) -> Seq<Seq<char>> {
    s.map_values(|x: String| x@)
}

/// The texts that the entries of a tally are keyed by.
pub open spec fn tally_keys(t: Seq<(String, u64)>) -> Seq<Seq<char>> {
    t.map_values(|e: (String, u64)| e.0@)
}

/// `t` holds one entry for each distinct text among `results`, with the
/// number of times that it occurs there.
pub open spec fn is_choice_tally(t: Seq<(String, u64)>, results: Seq<String>) -> bool {
    &&& tally_keys(t).no_duplicates()
    &&& forall|k: int|
        0 <= k < t.len() ==> #[trigger] t[k].1 == occurrences(texts(results), t[k].0@) && t[k].1
            >= 1
    &&& forall|m: int| 0 <= m < results.len() ==> tally_keys(t).contains(#[trigger] results[m]@)
}

/// How many times each distinct text occurs among `results`, one entry per
/// text; the order of the entries carries no meaning.
pub fn choice_counts(results: &Vec<String>) -> (r: Vec<(String, u64)>)
    ensures
        is_choice_tally(r@, results@),
{
    let mut out: Vec<(String, u64)> = Vec::new();
    let mut i: usize = 0;
    while i < results.len()
        invariant
            i <= results@.len(),
            tally_keys(out@).no_duplicates(),
            forall|k: int|
                0 <= k < out@.len() ==> #[trigger] out@[k].1 == occurrences(
                    texts(results@).take(i as int),
                    out@[k].0@,
                ) && out@[k].1 >= 1,
            forall|m: int| 0 <= m < i ==> tally_keys(out@).contains(#[trigger] results@[m]@),
        decreases results@.len() - i,
    {
        let ghost seen = texts(results@).take(i as int);
        let ghost now = texts(results@).take(i + 1);
        let ghost v = results@[i as int]@;
        proof {
            assert(now.drop_last() == seen);
            assert(now.last() == v);
            lemma_occurrences_bound(seen, v);
        }
        let ghost old_out = out@;
        let ghost old_keys = tally_keys(out@);
        let mut k: usize = 0;
        while k < out.len() && !(out[k].0 == results[i])
            invariant
                i < results@.len(),
                v == results@[i as int]@,
                k <= out@.len(),
                out@ == old_out,
                forall|a: int| 0 <= a < k ==> out@[a].0@ != v,
            decreases out@.len() - k,
        {
            k = k + 1;
        }
        if k < out.len() {
            let key = out[k].0.clone();
            let count = out[k].1 + 1;
            out.set(k, (key, count));
            assert(tally_keys(out@) == old_keys);
        } else {
            proof {
                assert(!old_keys.contains(v));
                assert(occurrences(seen, v) == 0) by {
                    if occurrences(seen, v) > 0 {
                        lemma_occurrence_found(seen, v);
                        let m = choose|m: int| 0 <= m < seen.len() && seen[m] == v;
                        assert(seen[m] == results@[m]@);
                    }
                }
            }
            out.push((results[i].clone(), 1));
            assert(tally_keys(out@) == old_keys.push(v));
        }
        proof {
            assert forall|a: int| 0 <= a < out@.len() implies #[trigger] out@[a].1 == occurrences(
                now,
                out@[a].0@,
            ) && out@[a].1 >= 1 by {
                let x = out@[a].0@;
                assert(occurrences(now, x) == occurrences(seen, x) + if now.last() == x {
                    1nat
                } else {
                    0nat
                });
                if a < old_out.len() {
                    assert(old_out[a].1 == occurrences(seen, old_out[a].0@));
                    assert(old_keys[a] == old_out[a].0@);
                    if a != k && k < old_out.len() {
                        assert(old_keys[k as int] == v);
                    } else if a != k {
                        assert(!old_keys.contains(v));
                    }
                }
            }
            assert(tally_keys(out@)[k as int] == v);
            assert forall|m: int| 0 <= m < i + 1 implies tally_keys(out@).contains(
                #[trigger] results@[m]@,
            ) by {
                if m < i {
                    assert(old_keys.contains(results@[m]@));
                    let a = choose|a: int| 0 <= a < old_keys.len() && old_keys[a] == results@[m]@;
                    assert(tally_keys(out@)[a] == results@[m]@);
                }
            }
        }
        i = i + 1;
    }
    assert(texts(results@).take(i as int) == texts(results@));
    out
}

} // verus!
