//! The search engine: exhaustive alternating-turn exploration of all pair
//! removal sequences, returning the optimal cumulative score.

use vstd::prelude::*;

use crate::board::{board_wf, vacant_unit, State, Unit};
use crate::pairs::{all_pairs, lemma_no_tiles_no_pairs, lemma_pairs_sound, pair_candidate};

verus! {

/// The number of non-vacant slots among the first `n` positions.
pub open spec fn tiles_upto(s: Seq<Unit>, n: int) -> nat
    decreases n,
{
    if n <= 0 {
        0
    } else {
        tiles_upto(s, n - 1) + (if s[n - 1].is_vacant() {
            0nat
        } else {
            1nat
        })
    }
}

/// The number of tiles still on the board.
pub open spec fn tile_count(s: Seq<Unit>) -> nat {
    tiles_upto(s, 120)
}

proof fn lemma_tiles_upto_bound(s: Seq<Unit>, n: int)
    requires
        n >= 0,
    ensures
        tiles_upto(s, n) <= n,
    decreases n,
{
    if n > 0 {
        lemma_tiles_upto_bound(s, n - 1);
    }
}

/// A board never holds more tiles than slots.
pub proof fn lemma_tile_count_bound(s: Seq<Unit>)
    ensures
        tile_count(s) <= 120,
{
    lemma_tiles_upto_bound(s, 120);
}

/// The board after a pair removal: both slots vacant.
pub open spec fn remove2(s: Seq<Unit>, a: usize, b: usize) -> Seq<Unit> {
    s.update(a as int, vacant_unit()).update(b as int, vacant_unit())
}

proof fn lemma_tiles_upto_update(s: Seq<Unit>, p: int, n: int)
    requires
        0 <= p < s.len(),
        n <= s.len(),
    ensures
        tiles_upto(s.update(p, vacant_unit()), n) == tiles_upto(s, n) - (if p < n
            && !s[p].is_vacant() {
            1int
        } else {
            0int
        }),
    decreases n,
{
    if n > 0 {
        lemma_tiles_upto_update(s, p, n - 1);
    }
}

/// Removing a matching pair takes exactly two tiles off the board.
pub proof fn lemma_remove2_count(s: Seq<Unit>, a: usize, b: usize)
    requires
        s.len() == 120,
        a < 120,
        b < 120,
        a != b,
        !s[a as int].is_vacant(),
        !s[b as int].is_vacant(),
    ensures
        tile_count(remove2(s, a, b)) == tile_count(s) - 2,
        tile_count(s) >= 2,
{
    let s1 = s.update(a as int, vacant_unit());
    lemma_tiles_upto_update(s, a as int, 120);
    lemma_tiles_upto_update(s1, b as int, 120);
    assert(s1[b as int] == s[b as int]);
}

/// Removing a pair keeps every identity on the board well formed.
pub proof fn lemma_remove2_wf(s: Seq<Unit>, a: usize, b: usize)
    requires
        board_wf(s),
        a < 120,
        b < 120,
    ensures
        board_wf(remove2(s, a, b)),
{
    assert forall|i: int| 0 <= i < 120 implies (#[trigger] remove2(s, a, b)[i]).wf() by {
        if i != a && i != b {
            assert(remove2(s, a, b)[i] == s[i]);
        }
    }
}

/// The score a candidate move hands to the child node: a maximizing turn
/// banks the removed rank, a minimizing turn banks nothing.
pub open spec fn moved_score(s: Seq<Unit>, a: usize, point: int, turns: nat) -> int {
    if turns % 2 == 0 {
        point + s[a as int].point
    } else {
        point
    }
}

/// The value of a search node: the accumulated score when the board offers
/// no candidate pair or the turn bound is reached, otherwise the maximum
/// (even turn) or minimum (odd turn) of the children's values.
pub open spec fn spec_search(s: Seq<Unit>, point: int, turns: nat, bound: nat) -> int
    decreases tile_count(s), 1int, 0int,
{
    if s.len() != 120 || all_pairs(s).len() == 0 || turns >= bound {
        point
    } else {
        spec_best(s, all_pairs(s).len() as int, point, turns, bound)
    }
}

/// The best value among the children reached through the first `i` candidate
/// pairs of the board: maximum on an even turn, minimum on an odd one.
pub open spec fn spec_best(s: Seq<Unit>, i: int, point: int, turns: nat, bound: nat) -> int
    decreases tile_count(s), 0int, (if i >= 1 { i } else { 1int }),
{
    let ps = all_pairs(s);
    if s.len() != 120 || ps.len() == 0 || turns >= bound {
        point
    } else {
        let k = if 1 <= i && i <= ps.len() {
            i
        } else {
            1int
        };
        let (a, b) = ps[k - 1];
        let child = {
            proof {
                lemma_pairs_sound(s);
                lemma_remove2_count(s, a, b);
            }
            spec_search(remove2(s, a, b), moved_score(s, a, point, turns), (turns + 1) as nat, bound)
        };
        if k == 1 {
            child
        } else if turns % 2 == 0 {
            if child > spec_best(s, k - 1, point, turns, bound) {
                child
            } else {
                spec_best(s, k - 1, point, turns, bound)
            }
        } else {
            if child < spec_best(s, k - 1, point, turns, bound) {
                child
            } else {
                spec_best(s, k - 1, point, turns, bound)
            }
        }
    }
}

/// A fully solved board is terminal: the search returns its accumulated
/// score unchanged at any turn index and bound, since no candidates exist.
pub proof fn lemma_solved_board_keeps_score(s: Seq<Unit>, point: int, turns: nat, bound: nat)
    requires
        s.len() == 120,
        forall|i: int| 0 <= i < s.len() ==> (#[trigger] s[i]).is_vacant(),
    ensures
        spec_search(s, point, turns, bound) == point,
{
    lemma_no_tiles_no_pairs(s);
}

/// The search engine. From the current board, the score accumulated so far,
/// the current turn index, and the turn bound, it explores every removal
/// sequence and returns the optimal score under alternating play: even turns
/// maximize and bank the removed rank, odd turns minimize and bank nothing.
/// A node with no candidate pair, or reached once `turns >= bound`, returns
/// the accumulated score unchanged.
pub fn step(state: &State, point: usize, turns: usize, bound: usize) -> (r: usize)
    requires
        board_wf(state@),
        point + 5 * tile_count(state@) <= usize::MAX,
    ensures
        r as int == spec_search(state@, point as int, turns as nat, bound as nat),
    decreases tile_count(state@),
{
    let pairs = state.find_pair();
    if pairs.len() == 0 || turns >= bound {
        return point;
    }
    let ghost s = state@;
    proof {
        lemma_pairs_sound(s);
    }
    let mut best: usize = 0;
    let mut idx: usize = 0;
    while idx < pairs.len()
        invariant
            board_wf(s),
            state@ == s,
            pairs@ == all_pairs(s),
            pairs@.len() > 0,
            (turns as nat) < bound as nat,
            point + 5 * tile_count(s) <= usize::MAX,
            idx <= pairs@.len(),
            forall|t: int| 0 <= t < all_pairs(s).len()
                ==> pair_candidate(s, #[trigger] all_pairs(s)[t]),
            idx >= 1 ==> best as int == spec_best(s, idx as int, point as int, turns as nat,
                bound as nat),
        decreases pairs@.len() - idx,
    {
        let (a, b) = pairs[idx];
        assert(pair_candidate(s, (a, b)));
        let mut child = state.duplicate();
        let res = child.remove_pair((a, b));
        let p = match res {
            Ok(p) => p,
            Err(_) => {
                assert(false);
                0
            },
        };
        proof {
            lemma_remove2_count(s, a, b);
            lemma_remove2_wf(s, a, b);
        }
        assert(child@ == remove2(s, a, b));
        assert(p <= 10) by {
            assert(s[a as int].wf());
        }
        let moved = if turns % 2 == 0 {
            point + p
        } else {
            point
        };
        assert(moved as int == moved_score(s, a, point as int, turns as nat));
        let v = step(&child, moved, turns + 1, bound);
        if idx == 0 {
            best = v;
        } else if turns % 2 == 0 {
            if v > best {
                best = v;
            }
        } else {
            if v < best {
                best = v;
            }
        }
        proof {
            let k = idx as int + 1;
            assert(spec_best(s, k, point as int, turns as nat, bound as nat) == best as int);
        }
        idx += 1;
    }
    proof {
        assert(spec_search(s, point as int, turns as nat, bound as nat) == spec_best(
            s, pairs@.len() as int, point as int, turns as nat, bound as nat));
    }
    best
}

} // verus!
