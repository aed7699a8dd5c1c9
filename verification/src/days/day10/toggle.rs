//! The toggle puzzle: the fewest presses that turn the indicator lights from
//! all off to the target pattern.

use vstd::prelude::*;
use std::collections::HashSet;
use crate::days::day10::machine::Machine;

verus! {

broadcast use vstd::std_specs::hash::group_hash_axioms;

/// The pattern after pressing, from all lights off, the buttons picked, in
/// order.
pub open spec fn press_all(buttons: Seq<u128>, picks: Seq<int>) -> u128
    decreases picks.len(),
{
    if picks.len() == 0 {
        0u128
    } else {
        press_all(buttons, picks.drop_last()) ^ buttons[picks.last()]
    }
}

/// Every pick names a button.
pub open spec fn valid_picks(buttons: Seq<u128>, picks: Seq<int>) -> bool {
    forall|i: int| 0 <= i < picks.len() ==> 0 <= #[trigger] picks[i] < buttons.len()
}

/// Some sequence of exactly `d` presses gives the pattern `state`.
pub open spec fn reachable_in(buttons: Seq<u128>, state: u128, d: int) -> bool {
    exists|picks: Seq<int>|
        picks.len() == d && valid_picks(buttons, picks) && #[trigger] press_all(buttons, picks)
            == state
}

/// Some sequence of at most `d` presses gives the pattern `state`.
pub open spec fn reachable_within(buttons: Seq<u128>, state: u128, d: int) -> bool {
    exists|k: int| 0 <= k <= d && #[trigger] reachable_in(buttons, state, k)
}

/// Without a press all lights are off.
pub proof fn lemma_reach_zero(buttons: Seq<u128>, state: u128)
    ensures
        reachable_in(buttons, state, 0) <==> state == 0,
{
    if state == 0 {
        let picks = Seq::<int>::empty();
        assert(picks.len() == 0 && valid_picks(buttons, picks) && press_all(buttons, picks) == 0);
    }
}

/// One more press after `d` presses makes `d + 1`.
pub proof fn lemma_reach_step(buttons: Seq<u128>, state: u128, d: int, b: int)
    requires
        reachable_in(buttons, state, d),
        0 <= b < buttons.len(),
    ensures
        reachable_in(buttons, state ^ buttons[b], d + 1),
{
    let picks = choose|picks: Seq<int>|
        picks.len() == d && valid_picks(buttons, picks) && #[trigger] press_all(buttons, picks)
            == state;
    let more = picks.push(b);
    assert(more.drop_last() =~= picks);
    assert(more.len() == d + 1 && valid_picks(buttons, more) && press_all(buttons, more) == state
        ^ buttons[b]);
}

/// A pattern reached by `d > 0` presses is one press away from a pattern
/// reached by `d - 1`.
pub proof fn lemma_reach_unstep(buttons: Seq<u128>, state: u128, d: int) -> (prev: (u128, int))
    requires
        reachable_in(buttons, state, d),
        d > 0,
    ensures
        reachable_in(buttons, prev.0, d - 1),
        0 <= prev.1 < buttons.len(),
        state == prev.0 ^ buttons[prev.1],
{
    let picks = choose|picks: Seq<int>|
        picks.len() == d && valid_picks(buttons, picks) && #[trigger] press_all(buttons, picks)
            == state;
    let fewer = picks.drop_last();
    assert(fewer.len() == d - 1 && valid_picks(buttons, fewer) && press_all(buttons, fewer)
        == press_all(buttons, fewer));
    (press_all(buttons, fewer), picks.last())
}

/// When one more press reaches nothing new, no number of presses does.
pub proof fn lemma_reach_closed(buttons: Seq<u128>, d: int, state: u128, k: int)
    requires
        0 <= d,
        forall|s: u128| #[trigger]
            reachable_within(buttons, s, d + 1) ==> reachable_within(buttons, s, d),
        reachable_in(buttons, state, k),
        0 <= k,
    ensures
        reachable_within(buttons, state, d),
    decreases k,
{
    if k <= d {
        assert(reachable_in(buttons, state, k));
    } else {
        let prev = lemma_reach_unstep(buttons, state, k);
        lemma_reach_closed(buttons, d, prev.0, k - 1);
        let j = choose|j: int| 0 <= j <= d && #[trigger] reachable_in(buttons, prev.0, j);
        lemma_reach_step(buttons, prev.0, j, prev.1);
        assert(reachable_in(buttons, state, j + 1));
        assert(reachable_within(buttons, state, d + 1));
    }
}

/// The fewest button presses that turn the lights from all off to the
/// machine's target pattern, or `None` when no sequence of presses does.
///
/// The patterns are visited breadth first: level by level, each level
/// holding the patterns first reached with that many presses.
pub fn min_button_presses(machine: &Machine) -> (result: Option<u64>)
    ensures
        match result {
            Some(d) => reachable_in(machine.buttons@, machine.target, d as int) && !reachable_within(
                machine.buttons@,
                machine.target,
                d - 1,
            ),
            None => forall|k: int| 0 <= k ==> !reachable_in(machine.buttons@, machine.target, k),
        },
{
    let target = machine.target;
    let ghost buttons = machine.buttons@;
    let nb = machine.buttons.len();
    if target == 0 {
        proof {
            lemma_reach_zero(buttons, target);
        }
        return Some(0);
    }
    let mut visited: HashSet<u128> = HashSet::new();
    visited.insert(0);
    let mut frontier: Vec<u128> = Vec::new();
    frontier.push(0);
    let mut dist: u64 = 0;
    proof {
        assert forall|s: u128| visited@.contains(s) <==> reachable_within(buttons, s, 0) by {
            lemma_reach_zero(buttons, s);
            if reachable_within(buttons, s, 0) {
                let k = choose|k: int| 0 <= k <= 0 && #[trigger] reachable_in(buttons, s, k);
            }
        }
        lemma_reach_zero(buttons, 0);
        assert forall|s: u128|
            reachable_in(buttons, s, 0) && !reachable_within(
                buttons,
                s,
                -1,
            ) implies frontier@.contains(s) by {
            lemma_reach_zero(buttons, s);
            assert(frontier@[0] == s);
        }
        assert(visited@.len() == 1);
    }
    loop
        invariant
            buttons == machine.buttons@,
            target == machine.target,
            nb == buttons.len(),
            visited@.finite(),
            forall|s: u128| visited@.contains(s) <==> reachable_within(buttons, s, dist as int),
            forall|i: int| 0 <= i < frontier@.len() ==> reachable_in(buttons, frontier@[i], dist as int),
            forall|s: u128|
                reachable_in(buttons, s, dist as int) && !reachable_within(buttons, s, dist - 1)
                    ==> frontier@.contains(s),
            !visited@.contains(target),
            dist < visited@.len(),
        decreases Set::<u128>::full().difference(visited@).len(),
    {
        let ghost v0 = visited@;
        let mut next: Vec<u128> = Vec::new();
        for i in 0..frontier.len()
            invariant
                buttons == machine.buttons@,
                target == machine.target,
                nb == buttons.len(),
                visited@.finite(),
                v0.finite(),
                dist < v0.len(),
                forall|s: u128| v0.contains(s) <==> reachable_within(buttons, s, dist as int),
                forall|k: int|
                    0 <= k < frontier@.len() ==> reachable_in(buttons, frontier@[k], dist as int),
                forall|s: u128| v0.contains(s) ==> visited@.contains(s),
                forall|s: u128| visited@.contains(s) ==> reachable_within(buttons, s, dist + 1),
                forall|s: u128| visited@.contains(s) && !v0.contains(s) ==> next@.contains(s),
                forall|k: int|
                    0 <= k < next@.len() ==> visited@.contains(next@[k]) && !v0.contains(next@[k]),
                forall|p: int, j: int|
                    0 <= p < i && 0 <= j < nb ==> visited@.contains(
                        #[trigger] (frontier@[p] ^ buttons[j]),
                    ),
                !visited@.contains(target),
        {
            let state = frontier[i];
            for j in 0..nb
                invariant
                    buttons == machine.buttons@,
                    target == machine.target,
                    nb == buttons.len(),
                    i < frontier@.len(),
                    state == frontier@[i as int],
                    visited@.finite(),
                    v0.finite(),
                    dist < v0.len(),
                    forall|s: u128| v0.contains(s) <==> reachable_within(buttons, s, dist as int),
                    forall|k: int|
                        0 <= k < frontier@.len() ==> reachable_in(
                            buttons,
                            frontier@[k],
                            dist as int,
                        ),
                    forall|s: u128| v0.contains(s) ==> visited@.contains(s),
                    forall|s: u128| visited@.contains(s) ==> reachable_within(buttons, s, dist + 1),
                    forall|s: u128| visited@.contains(s) && !v0.contains(s) ==> next@.contains(s),
                    forall|k: int|
                        0 <= k < next@.len() ==> visited@.contains(next@[k]) && !v0.contains(
                            next@[k],
                        ),
                    forall|p: int, q: int|
                        0 <= p < i && 0 <= q < nb ==> visited@.contains(
                            #[trigger] (frontier@[p] ^ buttons[q]),
                        ),
                    forall|q: int|
                        0 <= q < j ==> visited@.contains(#[trigger] (state ^ buttons[q])),
                    !visited@.contains(target),
            {
                let reached = state ^ machine.buttons[j];
                proof {
                    lemma_reach_step(buttons, state, dist as int, j as int);
                    assert(reachable_within(buttons, reached, dist + 1));
                }
                if reached == target {
                    proof {
                        vstd::set_lib::lemma_len_subset(v0, visited@);
                    }
                    let ghost seen = visited.len();
                    return Some(dist + 1);
                }
                let ghost before = visited@;
                let ghost listed = next@;
                let fresh = visited.insert(reached);
                if fresh {
                    next.push(reached);
                    proof {
                        assert(next@[listed.len() as int] == reached);
                        assert forall|s: u128|
                            visited@.contains(s) && !v0.contains(s) implies next@.contains(s) by {
                            if s != reached {
                                assert(before.contains(s));
                                let k = choose|k: int| 0 <= k < listed.len() && listed[k] == s;
                                assert(next@[k] == s);
                            }
                        }
                    }
                }
            }
        }
        let seen = visited.len();
        if next.len() == 0 {
            proof {
                assert forall|s: u128| #[trigger]
                    reachable_within(buttons, s, dist + 1) implies reachable_within(
                    buttons,
                    s,
                    dist as int,
                ) by {
                    if !reachable_within(buttons, s, dist as int) {
                        let k = choose|k: int|
                            0 <= k <= dist + 1 && #[trigger] reachable_in(buttons, s, k);
                        assert(k == dist + 1);
                        let prev = lemma_reach_unstep(buttons, s, dist + 1);
                        if reachable_within(buttons, prev.0, dist - 1) {
                            let m = choose|m: int|
                                0 <= m <= dist - 1 && #[trigger] reachable_in(buttons, prev.0, m);
                            lemma_reach_step(buttons, prev.0, m, prev.1);
                            assert(reachable_in(buttons, s, m + 1));
                        }
                        assert(frontier@.contains(prev.0));
                        let p = choose|p: int| 0 <= p < frontier@.len() && frontier@[p] == prev.0;
                        assert(visited@.contains(frontier@[p] ^ buttons[prev.1]));
                        assert(!v0.contains(s));
                        assert(next@.contains(s));
                    }
                }
                assert forall|k: int| 0 <= k implies !reachable_in(buttons, target, k) by {
                    if reachable_in(buttons, target, k) {
                        lemma_reach_closed(buttons, dist as int, target, k);
                    }
                }
            }
            return None;
        }
        proof {
            let first = next@[0];
            assert(visited@.contains(first) && !v0.contains(first));
            assert(v0.subset_of(visited@));
            v0.lemma_subset_not_in_lt(visited@, first);
            broadcast use vstd::set_lib::full_set_properties;
            let full = Set::<u128>::full();
            assert(full.difference(visited@).subset_of(full.difference(v0)));
            full.difference(visited@).lemma_subset_not_in_lt(full.difference(v0), first);
            assert forall|s: u128| visited@.contains(s) <==> reachable_within(
                buttons,
                s,
                dist + 1,
            ) by {
                if reachable_within(buttons, s, dist + 1) && !visited@.contains(s) {
                    assert(!reachable_within(buttons, s, dist as int));
                    let k = choose|k: int|
                        0 <= k <= dist + 1 && #[trigger] reachable_in(buttons, s, k);
                    assert(k == dist + 1);
                    let prev = lemma_reach_unstep(buttons, s, dist + 1);
                    if reachable_within(buttons, prev.0, dist - 1) {
                        let m = choose|m: int|
                            0 <= m <= dist - 1 && #[trigger] reachable_in(buttons, prev.0, m);
                        lemma_reach_step(buttons, prev.0, m, prev.1);
                        assert(reachable_in(buttons, s, m + 1));
                    }
                    assert(frontier@.contains(prev.0));
                    let p = choose|p: int| 0 <= p < frontier@.len() && frontier@[p] == prev.0;
                    assert(visited@.contains(frontier@[p] ^ buttons[prev.1]));
                }
            }
            assert forall|k: int| 0 <= k < next@.len() implies reachable_in(
                buttons,
                next@[k],
                dist + 1,
            ) by {
                let s = next@[k];
                assert(visited@.contains(s) && !v0.contains(s));
                let m = choose|m: int| 0 <= m <= dist + 1 && #[trigger] reachable_in(buttons, s, m);
                if m <= dist {
                    assert(reachable_within(buttons, s, dist as int));
                }
            }
            assert forall|s: u128|
                reachable_in(buttons, s, dist + 1) && !reachable_within(
                    buttons,
                    s,
                    dist as int,
                ) implies next@.contains(s) by {
                assert(reachable_within(buttons, s, dist + 1));
            }
        }
        frontier = next;
        dist = dist + 1;
    }
}

} // verus!
