//! Ranges of ids: bringing a list of ranges into its shortest form, asking
//! whether an id lies in one of them, and counting the ids they hold.

use vstd::prelude::*;
use vstd::set_lib::{lemma_int_range, lemma_set_disjoint_lens, set_int_range};

verus! {

/// `x` lies in the range, whose ends are both included.
pub open spec fn in_range(r: (u64, u64), x: int) -> bool {
    r.0 <= x <= r.1
}

/// `x` lies in one of the first `n` ranges.
pub open spec fn covered_upto(ranges: Seq<(u64, u64)>, n: int, x: int) -> bool {
    exists|k: int| 0 <= k < n && k < ranges.len() && #[trigger] in_range(ranges[k], x)
}

/// `x` lies in one of the ranges.
pub open spec fn covered(ranges: Seq<(u64, u64)>, x: int) -> bool {
    covered_upto(ranges, ranges.len() as int, x)
}

/// Each range has its ends in order.
pub open spec fn ordered(ranges: Seq<(u64, u64)>) -> bool {
    forall|k: int| 0 <= k < ranges.len() ==> (#[trigger] ranges[k]).0 <= ranges[k].1
}

/// The ranges are in their shortest form: each has its ends in order, and
/// between the end of one and the start of any later one at least one id
/// is left out.
pub open spec fn is_merged(m: Seq<(u64, u64)>) -> bool {
    &&& ordered(m)
    &&& forall|j: int, k: int|
        0 <= j < k < m.len() ==> (#[trigger] m[j]).1 + 1 < (#[trigger] m[k]).0
}

/// For the id `x`, the ranges set aside and the range in hand cover what
/// the first `n` of the sorted ranges cover.
pub open spec fn sweep_ok(
    merged: Seq<(u64, u64)>,
    current: (u64, u64),
    ranges: Seq<(u64, u64)>,
    n: int,
    x: int,
) -> bool {
    (covered(merged, x) || in_range(current, x)) <==> covered_upto(ranges, n, x)
}

/// Sorts the ranges with `slice::sort_by_key`, the key being the start of
/// a range. The contract claims that the result holds the same ranges, each
/// as often as before, with their starts in ascending order; that equal
/// starts keep their order is not stated.
#[verifier::external_body]
fn sort_by_start(ranges: &mut Vec<(u64, u64)>)
    ensures
        final(ranges)@.to_multiset() == old(ranges)@.to_multiset(),
        forall|i: int, j: int|
            0 <= i <= j < final(ranges)@.len() ==> (#[trigger] final(ranges)@[i]).0 <= (
            #[trigger] final(ranges)@[j]).0,
{
    ranges.sort_by_key(|r| r.0);
}

/// Two lists that hold the same ranges cover the same ids, and one has its
/// ranges' ends in order if the other has.
pub proof fn lemma_same_ranges(a: Seq<(u64, u64)>, b: Seq<(u64, u64)>)
    requires
        a.to_multiset() == b.to_multiset(),
    ensures
        forall|x: int| covered(a, x) <==> covered(b, x),
        ordered(a) <==> ordered(b),
        a.len() == b.len(),
{
    a.to_multiset_ensures();
    b.to_multiset_ensures();
    assert forall|r: (u64, u64)| a.contains(r) <==> b.contains(r) by {
        assert(a.contains(r) <==> a.to_multiset().count(r) > 0);
        assert(b.contains(r) <==> b.to_multiset().count(r) > 0);
    }
    assert forall|x: int| covered(a, x) implies covered(b, x) by {
        let k = choose|k: int| 0 <= k < a.len() && #[trigger] in_range(a[k], x);
        assert(a.contains(a[k]));
        assert(b.contains(a[k]));
        let j = choose|j: int| 0 <= j < b.len() && b[j] == a[k];
        assert(in_range(b[j], x));
    }
    assert forall|x: int| covered(b, x) implies covered(a, x) by {
        let k = choose|k: int| 0 <= k < b.len() && #[trigger] in_range(b[k], x);
        assert(b.contains(b[k]));
        assert(a.contains(b[k]));
        let j = choose|j: int| 0 <= j < a.len() && a[j] == b[k];
        assert(in_range(a[j], x));
    }
    if ordered(a) {
        assert forall|k: int| 0 <= k < b.len() implies (#[trigger] b[k]).0 <= b[k].1 by {
            assert(b.contains(b[k]));
            assert(a.contains(b[k]));
            let j = choose|j: int| 0 <= j < a.len() && a[j] == b[k];
            assert(a[j].0 <= a[j].1);
        }
    }
    if ordered(b) {
        assert forall|k: int| 0 <= k < a.len() implies (#[trigger] a[k]).0 <= a[k].1 by {
            assert(a.contains(a[k]));
            assert(b.contains(a[k]));
            let j = choose|j: int| 0 <= j < b.len() && b[j] == a[k];
            assert(b[j].0 <= b[j].1);
        }
    }
}

/// The shortest form of the ranges: it covers the same ids.
pub fn merge_ranges(ranges: Vec<(u64, u64)>) -> (merged: Vec<(u64, u64)>)
    requires
        ordered(ranges@),
    ensures
        is_merged(merged@),
        forall|x: int| #[trigger] covered(merged@, x) <==> covered(ranges@, x),
{
    let ghost given = ranges@;
    let mut ranges = ranges;
    if ranges.len() == 0 {
        return ranges;
    }
    sort_by_start(&mut ranges);
    proof {
        lemma_same_ranges(given, ranges@);
    }
    let n = ranges.len();
    let mut merged: Vec<(u64, u64)> = Vec::new();
    let mut current = ranges[0];
    let ghost mut origin: int = 0;
    let mut i: usize = 1;
    assert forall|x: int| #[trigger] sweep_ok(merged@, current, ranges@, 1, x) by {
        if in_range(current, x) {
            assert(in_range(ranges@[0], x));
        }
    }
    while i < n
        invariant
            1 <= i <= n,
            n == ranges@.len(),
            ordered(ranges@),
            forall|x: int| #[trigger] covered(ranges@, x) <==> covered(given, x),
            forall|a: int, b: int|
                0 <= a <= b < ranges@.len() ==> (#[trigger] ranges@[a]).0 <= (
                #[trigger] ranges@[b]).0,
            current.0 <= current.1,
            0 <= origin < i,
            current.0 == ranges@[origin].0,
            is_merged(merged@),
            forall|k: int| 0 <= k < merged@.len() ==> (#[trigger] merged@[k]).1 + 1 < current.0,
            forall|x: int| #[trigger] sweep_ok(merged@, current, ranges@, i as int, x),
        decreases n - i,
    {
        let (start, end) = ranges[i];
        let ghost before = merged@;
        let ghost held = current;
        assert(ranges@[i as int].0 <= ranges@[i as int].1);
        assert(ranges@[origin].0 <= ranges@[i as int].0);
        if start <= current.1.saturating_add(1) {
            if end > current.1 {
                current.1 = end;
            }
            proof {
                assert(held.0 <= start);
                assert(start <= held.1 + 1);
                assert(current.0 == held.0);
                assert(current.1 == if end > held.1 { end } else { held.1 });
                assert forall|x: int| #[trigger]
                    sweep_ok(merged@, current, ranges@, i + 1, x) by {
                    assert(sweep_ok(before, held, ranges@, i as int, x));
                    lemma_one_more(ranges@, i as int, x);
                    assert(in_range(ranges@[i as int], x) <==> start <= x <= end);
                    assert(in_range(held, x) <==> held.0 <= x <= held.1);
                    assert(in_range(current, x) <==> current.0 <= x <= current.1);
                    assert(in_range(current, x) <==> in_range(held, x) || in_range(
                        ranges@[i as int],
                        x,
                    ));
                }
            }
        } else {
            merged.push(current);
            current = (start, end);
            proof {
                origin = i as int;
                assert forall|j: int, k: int| 0 <= j < k < merged@.len() implies (
                #[trigger] merged@[j]).1 + 1 < (#[trigger] merged@[k]).0 by {
                    if k < before.len() {
                        assert(before[j].1 + 1 < before[k].0);
                    } else {
                        assert(before[j].1 + 1 < held.0);
                    }
                }
                assert forall|x: int| #[trigger]
                    sweep_ok(merged@, current, ranges@, i + 1, x) by {
                    assert(sweep_ok(before, held, ranges@, i as int, x));
                    lemma_one_more(ranges@, i as int, x);
                    lemma_one_more(merged@, before.len() as int, x);
                    assert(merged@[before.len() as int] == held);
                    assert(covered_upto(merged@, before.len() as int, x) <==> covered(before, x))
                        by {
                        if covered(before, x) {
                            let k = choose|k: int|
                                0 <= k < before.len() && #[trigger] in_range(before[k], x);
                            assert(in_range(merged@[k], x));
                        }
                        if covered_upto(merged@, before.len() as int, x) {
                            let k = choose|k: int|
                                0 <= k < before.len() && k < merged@.len() && #[trigger] in_range(
                                    merged@[k],
                                    x,
                                );
                            assert(in_range(before[k], x));
                        }
                    }
                }
            }
        }
        i += 1;
    }
    let ghost before = merged@;
    merged.push(current);
    proof {
        assert forall|j: int, k: int| 0 <= j < k < merged@.len() implies (#[trigger] merged@[j]).1
            + 1 < (#[trigger] merged@[k]).0 by {
            if k < before.len() {
                assert(before[j].1 + 1 < before[k].0);
            }
        }
        assert forall|x: int| covered(merged@, x) <==> covered(given, x) by {
            assert(sweep_ok(before, current, ranges@, n as int, x));
            lemma_one_more(merged@, before.len() as int, x);
            assert(covered(ranges@, x) <==> covered(given, x));
            assert(merged@[before.len() as int] == current);
            if covered(before, x) {
                let k = choose|k: int| 0 <= k < before.len() && #[trigger] in_range(before[k], x);
                assert(in_range(merged@[k], x));
            }
            if covered_upto(merged@, before.len() as int, x) {
                let k = choose|k: int|
                    0 <= k < before.len() && k < merged@.len() && #[trigger] in_range(
                        merged@[k],
                        x,
                    );
                assert(in_range(before[k], x));
            }
        }
    }
    merged
}

/// One more range covers what the ranges before it cover, and what lies in
/// it.
pub proof fn lemma_one_more(ranges: Seq<(u64, u64)>, n: int, x: int)
    requires
        0 <= n < ranges.len(),
    ensures
        covered_upto(ranges, n + 1, x) <==> covered_upto(ranges, n, x) || in_range(ranges[n], x),
{
    if covered_upto(ranges, n + 1, x) {
        let k = choose|k: int| 0 <= k < n + 1 && k < ranges.len() && #[trigger] in_range(ranges[k], x);
        if k < n {
            assert(covered_upto(ranges, n, x));
        }
    }
    if covered_upto(ranges, n, x) {
        let k = choose|k: int| 0 <= k < n && k < ranges.len() && #[trigger] in_range(ranges[k], x);
        assert(in_range(ranges[k], x));
    }
    if in_range(ranges[n], x) {
        assert(covered_upto(ranges, n + 1, x));
    }
}

/// Whether `id` lies in one of the ranges, which are in their shortest
/// form.
pub fn holds(merged: &Vec<(u64, u64)>, id: u64) -> (found: bool)
    requires
        is_merged(merged@),
    ensures
        found == covered(merged@, id as int),
{
    let mut k: usize = 0;
    while k < merged.len()
        invariant
            k <= merged@.len(),
            is_merged(merged@),
            !covered_upto(merged@, k as int, id as int),
        decreases merged@.len() - k,
    {
        let (start, end) = merged[k];
        if id < start {
            proof {
                if covered(merged@, id as int) {
                    let j = choose|j: int|
                        0 <= j < merged@.len() && #[trigger] in_range(merged@[j], id as int);
                    if j < k {
                        assert(covered_upto(merged@, k as int, id as int));
                    } else if j > k {
                        assert(merged@[k as int].1 + 1 < merged@[j].0);
                        assert(merged@[k as int].0 <= merged@[k as int].1);
                    }
                }
            }
            return false;
        }
        if id <= end {
            assert(in_range(merged@[k as int], id as int));
            return true;
        }
        proof {
            lemma_one_more(merged@, k as int, id as int);
        }
        k += 1;
    }
    false
}

/// How many of the first `n` ids lie in one of the ranges.
pub open spec fn fresh_count(ids: Seq<u64>, ranges: Seq<(u64, u64)>, n: int) -> int
    decreases n,
{
    if n <= 0 {
        0
    } else {
        fresh_count(ids, ranges, n - 1) + if covered(ranges, ids[n - 1] as int) {
            1int
        } else {
            0int
        }
    }
}

/// How many of the ids lie in one of the ranges, which are in their
/// shortest form.
pub fn count_fresh(merged: &Vec<(u64, u64)>, ids: &Vec<u64>) -> (fresh: usize)
    requires
        is_merged(merged@),
    ensures
        fresh == fresh_count(ids@, merged@, ids@.len() as int),
{
    let mut fresh: usize = 0;
    let mut k: usize = 0;
    while k < ids.len()
        invariant
            k <= ids@.len(),
            is_merged(merged@),
            fresh == fresh_count(ids@, merged@, k as int),
            fresh <= k,
        decreases ids@.len() - k,
    {
        if holds(merged, ids[k]) {
            fresh += 1;
        }
        k += 1;
    }
    fresh
}

/// The ids that lie in one of the first `n` ranges.
pub open spec fn covered_set(ranges: Seq<(u64, u64)>, n: int) -> Set<int> {
    Set::new(|x: int| covered_upto(ranges, n, x))
}

/// The lengths of the first `n` ranges, added up.
pub open spec fn span_total(m: Seq<(u64, u64)>, n: int) -> int
    decreases n,
{
    if n <= 0 {
        0
    } else {
        span_total(m, n - 1) + (m[n - 1].1 - m[n - 1].0 + 1)
    }
}

/// Ranges in their shortest form hold as many ids as their lengths add up
/// to.
pub proof fn lemma_span(m: Seq<(u64, u64)>, n: int)
    requires
        is_merged(m),
        0 <= n <= m.len(),
    ensures
        covered_set(m, n).finite(),
        covered_set(m, n).len() == span_total(m, n),
        span_total(m, n) >= 0,
    decreases n,
{
    if n == 0 {
        assert(covered_set(m, 0) =~= Set::<int>::empty());
    } else {
        lemma_span(m, n - 1);
        let last = set_int_range(m[n - 1].0 as int, m[n - 1].1 + 1);
        let before = covered_set(m, n - 1);
        lemma_int_range(m[n - 1].0 as int, m[n - 1].1 + 1);
        assert forall|x: int| covered_set(m, n).contains(x) <==> (before + last).contains(x) by {
            lemma_one_more(m, n - 1, x);
        }
        assert(covered_set(m, n) =~= before + last);
        assert(before.disjoint(last)) by {
            assert forall|x: int| !(before.contains(x) && last.contains(x)) by {
                if before.contains(x) && last.contains(x) {
                    let k = choose|k: int|
                        0 <= k < n - 1 && k < m.len() && #[trigger] in_range(m[k], x);
                    assert(m[k].1 + 1 < m[n - 1].0);
                }
            }
        }
        lemma_set_disjoint_lens(before, last);
    }
}

/// How many ids lie in the ranges, which are in their shortest form.
pub fn count_covered(merged: &Vec<(u64, u64)>) -> (count: u128)
    requires
        is_merged(merged@),
    ensures
        covered_set(merged@, merged@.len() as int).finite(),
        count == covered_set(merged@, merged@.len() as int).len(),
{
    let mut count: u128 = 0;
    let mut k: usize = 0;
    while k < merged.len()
        invariant
            k <= merged@.len(),
            is_merged(merged@),
            count == span_total(merged@, k as int),
            count <= 0x1_0000_0000_0000_0000 * k,
        decreases merged@.len() - k,
    {
        let (start, end) = merged[k];
        assert(merged@[k as int].0 <= merged@[k as int].1);
        count = count + (end - start) as u128 + 1;
        k += 1;
    }
    proof {
        lemma_span(merged@, merged@.len() as int);
    }
    count
}

} // verus!
