//! The pair enumerator: all currently matchable pairs of free positions.

use vstd::prelude::*;

use crate::board::{board_wf, free_at, ident, State, Unit};

verus! {

/// The free positions among the first `n` slots that hold identity `u`, in
/// ascending order.
pub open spec fn group_upto(s: Seq<Unit>, u: Unit, n: int) -> Seq<usize>
    decreases n,
{
    if n <= 0 {
        Seq::empty()
    } else {
        let rest = group_upto(s, u, n - 1);
        if s[n - 1] == u && free_at(s, n - 1) {
            rest.push((n - 1) as usize)
        } else {
            rest
        }
    }
}

/// The free positions of the whole board that hold identity `u`, ascending.
pub open spec fn group(s: Seq<Unit>, u: Unit) -> Seq<usize> {
    group_upto(s, u, 120)
}

/// A group gathered from the first `n` slots holds at most `n` positions.
pub proof fn lemma_group_upto_len(s: Seq<Unit>, u: Unit, n: int)
    requires
        n >= 0,
    ensures
        group_upto(s, u, n).len() <= n,
    decreases n,
{
    if n > 0 {
        lemma_group_upto_len(s, u, n - 1);
    }
}

/// The pairwise combinations of the elements of `g`, starting at indices
/// (`i`, `j`): first (`g[i]`, `g[j]`), (`g[i]`, `g[j+1]`), ... then the
/// rounds anchored at `i + 1` and beyond.
pub open spec fn group_pairs_from(g: Seq<usize>, i: int, j: int) -> Seq<(usize, usize)>
    decreases g.len() - i, g.len() - j,
{
    if i < 0 || j <= i || i >= g.len() {
        Seq::empty()
    } else if j >= g.len() {
        group_pairs_from(g, i + 1, i + 2)
    } else {
        seq![(g[i], g[j])] + group_pairs_from(g, i, j + 1)
    }
}

/// All pairwise combinations of the elements of `g`: C(n, 2) pairs for a
/// group of n positions.
pub open spec fn group_pairs(g: Seq<usize>) -> Seq<(usize, usize)> {
    group_pairs_from(g, 0, 1)
}

/// The pair candidates of the identities with group index below `k`, in
/// identity order.
pub open spec fn pairs_upto(s: Seq<Unit>, k: int) -> Seq<(usize, usize)>
    decreases k,
{
    if k <= 0 {
        Seq::empty()
    } else {
        pairs_upto(s, k - 1) + group_pairs(group(s, ident(k - 1)))
    }
}

/// Every currently matchable pair of the board: two distinct free positions
/// holding the same tile identity, ordered by identity and then by position.
pub open spec fn all_pairs(s: Seq<Unit>) -> Seq<(usize, usize)> {
    pairs_upto(s, 30)
}

/// What makes an unordered pair of positions a candidate on board `s`: two
/// distinct in-range positions, both free, holding one non-vacant identity.
pub open spec fn pair_candidate(s: Seq<Unit>, pr: (usize, usize)) -> bool {
    &&& pr.0 < pr.1 < 120
    &&& s[pr.0 as int] == s[pr.1 as int]
    &&& !s[pr.0 as int].is_vacant()
    &&& free_at(s, pr.0 as int)
    &&& free_at(s, pr.1 as int)
}

/// C(m, 2): the number of unordered pairs drawn from m items.
pub open spec fn choose_two(m: int) -> int
    decreases m,
{
    if m <= 1 {
        0
    } else {
        (m - 1) + choose_two(m - 1)
    }
}

proof fn lemma_twice_choose_two(m: int)
    requires
        m >= 0,
    ensures
        2 * choose_two(m) == m * (m - 1),
    decreases m,
{
    if m > 1 {
        lemma_twice_choose_two(m - 1);
        assert(2 * choose_two(m) == m * (m - 1)) by (nonlinear_arith)
            requires
                m >= 2,
                2 * choose_two(m - 1) == (m - 1) * (m - 2),
                choose_two(m) == (m - 1) + choose_two(m - 1),
        ;
    } else {
        assert(2 * choose_two(m) == m * (m - 1)) by (nonlinear_arith)
            requires
                0 <= m <= 1,
                choose_two(m) == 0,
        ;
    }
}

/// The closed form of C(m, 2).
pub proof fn lemma_choose_two_closed_form(m: int)
    requires
        m >= 0,
    ensures
        choose_two(m) == m * (m - 1) / 2,
{
    lemma_twice_choose_two(m);
    assert(m * (m - 1) == 2 * choose_two(m));
    assert((2 * choose_two(m)) / 2 == choose_two(m));
}

/// Every position a group gathers holds the group's identity, is free, is in
/// range, and the group is strictly ascending.
pub proof fn lemma_group_upto_sound(s: Seq<Unit>, u: Unit, n: int)
    requires
        n <= 120,
    ensures
        forall|t: int| 0 <= t < group_upto(s, u, n).len()
            ==> (#[trigger] group_upto(s, u, n)[t]) < n
                && s[group_upto(s, u, n)[t] as int] == u
                && free_at(s, group_upto(s, u, n)[t] as int),
        forall|t1: int, t2: int| 0 <= t1 < t2 < group_upto(s, u, n).len()
            ==> group_upto(s, u, n)[t1] < group_upto(s, u, n)[t2],
    decreases n,
{
    if n > 0 {
        lemma_group_upto_sound(s, u, n - 1);
        let g0 = group_upto(s, u, n - 1);
        let g = group_upto(s, u, n);
        if s[n - 1] == u && free_at(s, n - 1) {
            assert(g == g0.push((n - 1) as usize));
            assert forall|t: int| 0 <= t < g.len() implies (#[trigger] g[t]) < n
                && s[g[t] as int] == u && free_at(s, g[t] as int) by {
                if t < g0.len() {
                    assert(g[t] == g0[t]);
                } else {
                    assert(g[t] == (n - 1) as usize);
                }
            }
            assert forall|t1: int, t2: int| 0 <= t1 < t2 < g.len() implies g[t1] < g[t2] by {
                if t2 < g0.len() {
                    assert(g[t1] == g0[t1] && g[t2] == g0[t2]);
                } else {
                    assert(g[t1] == g0[t1] && g[t2] == (n - 1) as usize);
                    assert(g0[t1] < n - 1);
                }
            }
        } else {
            assert(g == g0);
        }
    }
}

/// A group holds exactly the free positions with its identity.
pub proof fn lemma_group_characterizes(s: Seq<Unit>, u: Unit)
    ensures
        forall|p: usize| group(s, u).contains(p)
            <==> (p < 120 && s[p as int] == u && free_at(s, p as int)),
{
    lemma_group_upto_sound(s, u, 120);
    assert forall|p: usize| p < 120 && s[p as int] == u && free_at(s, p as int)
        implies group(s, u).contains(p) by {
        lemma_group_upto_contains(s, u, 120, p);
    }
    assert forall|p: usize| group(s, u).contains(p)
        implies p < 120 && s[p as int] == u && free_at(s, p as int) by {
        let t = choose|t: int| 0 <= t < group(s, u).len() && group(s, u)[t] == p;
        assert(group_upto(s, u, 120)[t] == p);
    }
}

proof fn lemma_group_upto_contains(s: Seq<Unit>, u: Unit, n: int, p: usize)
    requires
        p < n,
        s[p as int] == u,
        free_at(s, p as int),
    ensures
        group_upto(s, u, n).contains(p),
    decreases n,
{
    if p == n - 1 {
        assert(group_upto(s, u, n)[group_upto(s, u, n).len() - 1] == p);
    } else {
        lemma_group_upto_contains(s, u, n - 1, p);
        let g = group_upto(s, u, n - 1);
        let t = choose|t: int| 0 <= t < g.len() && g[t] == p;
        assert(group_upto(s, u, n)[t] == p);
    }
}

/// Every pair combined out of a sound group is a pair candidate.
proof fn lemma_group_pairs_from_sound(s: Seq<Unit>, u: Unit, g: Seq<usize>, i: int, j: int)
    requires
        !u.is_vacant(),
        forall|t: int| 0 <= t < g.len()
            ==> (#[trigger] g[t]) < 120 && s[g[t] as int] == u && free_at(s, g[t] as int),
        forall|t1: int, t2: int| 0 <= t1 < t2 < g.len() ==> g[t1] < g[t2],
    ensures
        forall|t: int| 0 <= t < group_pairs_from(g, i, j).len()
            ==> pair_candidate(s, #[trigger] group_pairs_from(g, i, j)[t]),
    decreases g.len() - i, g.len() - j,
{
    if i < 0 || j <= i || i >= g.len() {
    } else if j >= g.len() {
        lemma_group_pairs_from_sound(s, u, g, i + 1, i + 2);
        assert(group_pairs_from(g, i, j) == group_pairs_from(g, i + 1, i + 2));
    } else {
        lemma_group_pairs_from_sound(s, u, g, i, j + 1);
        let ps = group_pairs_from(g, i, j);
        let rest = group_pairs_from(g, i, j + 1);
        assert(ps == seq![(g[i], g[j])] + rest);
        assert(pair_candidate(s, (g[i], g[j])));
        assert forall|t: int| 0 <= t < ps.len() implies pair_candidate(s, #[trigger] ps[t]) by {
            if t == 0 {
                assert(ps[0] == (g[i], g[j]));
            } else {
                assert(ps[t] == rest[t - 1]);
            }
        }
    }
}

/// Every pair the enumerator produces over the first `k` identity groups is
/// a pair candidate.
proof fn lemma_pairs_upto_sound(s: Seq<Unit>, k: int)
    requires
        k <= 30,
    ensures
        forall|t: int| 0 <= t < pairs_upto(s, k).len()
            ==> pair_candidate(s, #[trigger] pairs_upto(s, k)[t]),
    decreases k,
{
    if k > 0 {
        lemma_pairs_upto_sound(s, k - 1);
        let u = ident(k - 1);
        assert(!u.is_vacant());
        lemma_group_upto_sound(s, u, 120);
        lemma_group_pairs_from_sound(s, u, group(s, u), 0, 1);
        let prev = pairs_upto(s, k - 1);
        let gp = group_pairs(group(s, u));
        let ps = pairs_upto(s, k);
        assert(ps == prev + gp);
        assert forall|t: int| 0 <= t < ps.len() implies pair_candidate(s, #[trigger] ps[t]) by {
            if t < prev.len() {
                assert(ps[t] == prev[t]);
            } else {
                assert(ps[t] == gp[t - prev.len()]);
            }
        }
    }
}

/// Every pair the enumerator returns consists of two distinct free positions
/// holding one non-vacant tile identity.
pub proof fn lemma_pairs_sound(s: Seq<Unit>)
    ensures
        forall|t: int| 0 <= t < all_pairs(s).len()
            ==> pair_candidate(s, #[trigger] all_pairs(s)[t]),
{
    lemma_pairs_upto_sound(s, 30);
}

proof fn lemma_group_pairs_from_len(g: Seq<usize>, i: int, j: int)
    requires
        0 <= i < g.len(),
        i < j <= g.len(),
    ensures
        group_pairs_from(g, i, j).len() == (g.len() - j) + choose_two(g.len() - 1 - i),
    decreases g.len() - i, g.len() - j,
{
    let n = g.len() as int;
    if j < n {
        lemma_group_pairs_from_len(g, i, j + 1);
    } else {
        if i + 1 < n {
            lemma_group_pairs_from_len(g, i + 1, i + 2);
        } else {
            assert(group_pairs_from(g, i + 1, i + 2) =~= Seq::<(usize, usize)>::empty());
        }
    }
}

/// A group of n free positions sharing one identity yields exactly C(n, 2)
/// pairwise combinations: 0 for n in {0, 1}, 1 for 2, 3 for 3, 6 for 4.
pub proof fn lemma_group_pair_count(g: Seq<usize>)
    ensures
        group_pairs(g).len() == choose_two(g.len() as int),
{
    let n = g.len() as int;
    if n >= 1 {
        lemma_group_pairs_from_len(g, 0, 1);
    }
}

/// Every well-formed non-vacant identity sits in the canonical order.
proof fn lemma_ident_index(u: Unit)
    requires
        u.wf(),
        !u.is_vacant(),
    ensures
        exists|k: int| 0 <= k < 30 && ident(k) == u,
{
    let k: int = 3 * (u.point - 1) + u.kind;
    vstd::arithmetic::div_mod::lemma_fundamental_div_mod_converse(
        k, 3, u.point - 1, u.kind as int);
    assert(0 <= k < 30 && ident(k) == u);
}

proof fn lemma_group_pairs_from_complete(g: Seq<usize>, i: int, j: int, ti: int, tj: int)
    requires
        0 <= i < g.len(),
        i < j <= g.len(),
        i <= ti < g.len(),
        ti < tj < g.len(),
        ti > i || tj >= j,
    ensures
        group_pairs_from(g, i, j).contains((g[ti], g[tj])),
    decreases g.len() - i, g.len() - j,
{
    let ps = group_pairs_from(g, i, j);
    if ti == i && tj == j {
        assert(ps[0] == (g[ti], g[tj]));
    } else if j < g.len() {
        lemma_group_pairs_from_complete(g, i, j + 1, ti, tj);
        let rest = group_pairs_from(g, i, j + 1);
        let w = choose|w: int| 0 <= w < rest.len() && rest[w] == (g[ti], g[tj]);
        assert(ps[w + 1] == (g[ti], g[tj]));
    } else {
        assert(ti > i);
        lemma_group_pairs_from_complete(g, i + 1, i + 2, ti, tj);
    }
}

/// A strictly ascending group's pairwise combinations hold every ordered
/// pair of its elements.
proof fn lemma_group_pairs_complete(g: Seq<usize>, a: usize, b: usize)
    requires
        forall|t1: int, t2: int| 0 <= t1 < t2 < g.len() ==> g[t1] < g[t2],
        g.contains(a),
        g.contains(b),
        a < b,
    ensures
        group_pairs(g).contains((a, b)),
{
    let ti = choose|ti: int| 0 <= ti < g.len() && g[ti] == a;
    let tj = choose|tj: int| 0 <= tj < g.len() && g[tj] == b;
    assert(ti < tj) by {
        if tj < ti {
            assert(g[tj] < g[ti]);
        }
    }
    lemma_group_pairs_from_complete(g, 0, 1, ti, tj);
}

proof fn lemma_pairs_upto_contains(s: Seq<Unit>, k: int, m: int, x: (usize, usize))
    requires
        0 <= k < m <= 30,
        group_pairs(group(s, ident(k))).contains(x),
    ensures
        pairs_upto(s, m).contains(x),
    decreases m,
{
    let prev = pairs_upto(s, m - 1);
    let gp = group_pairs(group(s, ident(m - 1)));
    if m == k + 1 {
        let w = choose|w: int| 0 <= w < gp.len() && gp[w] == x;
        assert(pairs_upto(s, m)[prev.len() + w] == x);
    } else {
        lemma_pairs_upto_contains(s, k, m - 1, x);
        let w = choose|w: int| 0 <= w < prev.len() && prev[w] == x;
        assert(pairs_upto(s, m)[w] == x);
    }
}

/// On a well-formed board the enumerator is complete: every pair of distinct
/// free positions holding one identity is among its candidates.
pub proof fn lemma_pairs_complete(s: Seq<Unit>, a: usize, b: usize)
    requires
        board_wf(s),
        pair_candidate(s, (a, b)),
    ensures
        all_pairs(s).contains((a, b)),
{
    let u = s[a as int];
    assert(u.wf());
    lemma_ident_index(u);
    let k = choose|k: int| 0 <= k < 30 && ident(k) == u;
    lemma_group_characterizes(s, u);
    lemma_group_upto_sound(s, u, 120);
    lemma_group_pairs_complete(group(s, u), a, b);
    lemma_pairs_upto_contains(s, k, 30, (a, b));
}

proof fn lemma_group_upto_empty(s: Seq<Unit>, u: Unit, n: int)
    requires
        n <= s.len(),
        !u.is_vacant(),
        forall|i: int| 0 <= i < s.len() ==> (#[trigger] s[i]).is_vacant(),
    ensures
        group_upto(s, u, n).len() == 0,
    decreases n,
{
    if n > 0 {
        lemma_group_upto_empty(s, u, n - 1);
    }
}

/// A board with no tiles at all offers no pair candidate.
pub proof fn lemma_no_tiles_no_pairs(s: Seq<Unit>)
    requires
        s.len() == 120,
        forall|i: int| 0 <= i < s.len() ==> (#[trigger] s[i]).is_vacant(),
    ensures
        all_pairs(s) == Seq::<(usize, usize)>::empty(),
{
    lemma_pairs_upto_empty(s, 30);
}

proof fn lemma_pairs_upto_empty(s: Seq<Unit>, k: int)
    requires
        s.len() == 120,
        k <= 30,
        forall|i: int| 0 <= i < s.len() ==> (#[trigger] s[i]).is_vacant(),
    ensures
        pairs_upto(s, k) == Seq::<(usize, usize)>::empty(),
    decreases k,
{
    if k > 0 {
        lemma_pairs_upto_empty(s, k - 1);
        lemma_group_upto_empty(s, ident(k - 1), 120);
        assert(group(s, ident(k - 1)) =~= Seq::<usize>::empty());
        assert(pairs_upto(s, k) =~= Seq::<(usize, usize)>::empty());
    }
}

impl State {
    /// The pair enumerator: every matchable pair of free positions on the
    /// current board, in a deterministic order (by identity, then by
    /// position).
    pub fn find_pair(&self) -> (r: Vec<(usize, usize)>)
        requires
            self@.len() == 120,
        ensures
            r@ == all_pairs(self@),
    {
        let mut pairs: Vec<(usize, usize)> = Vec::new();
        let mut k: usize = 0;
        while k < 30
            invariant
                self@.len() == 120,
                k <= 30,
                pairs@ == pairs_upto(self@, k as int),
            decreases 30 - k,
        {
            let point: u8 = (k / 3 + 1) as u8;
            let kind: u8 = (k % 3) as u8;
            let u = Unit { point, kind };
            assert(u == ident(k as int));

            let mut g: Vec<usize> = Vec::new();
            let mut p: usize = 0;
            while p < 120
                invariant
                    self@.len() == 120,
                    p <= 120,
                    u == ident(k as int),
                    g@ == group_upto(self@, u, p as int),
                decreases 120 - p,
            {
                let w = self.at(p);
                if w.point == u.point && w.kind == u.kind && self.is_unit_free(p as u8) {
                    g.push(p);
                }
                p += 1;
            }
            assert(g@ == group(self@, u));
            proof {
                lemma_group_upto_len(self@, u, 120);
            }

            let ghost before = pairs@;
            let mut i: usize = 0;
            while i < g.len()
                invariant
                    g@.len() <= 120,
                    i <= g@.len(),
                    before + group_pairs(g@) == pairs@ + group_pairs_from(g@, i as int, i + 1),
                decreases g@.len() - i,
            {
                let mut j: usize = i + 1;
                while j < g.len()
                    invariant
                        g@.len() <= 120,
                        i < j <= g@.len() || (i < g@.len() && j == i + 1),
                        i < g@.len(),
                        before + group_pairs(g@) == pairs@ + group_pairs_from(g@, i as int, j as int),
                    decreases g@.len() - j,
                {
                    let ghost prev = pairs@;
                    pairs.push((g[i], g[j]));
                    proof {
                        assert(pairs@ =~= prev + seq![(g@[i as int], g@[j as int])]);
                        assert(prev + (seq![(g@[i as int], g@[j as int])] + group_pairs_from(
                            g@, i as int, j + 1)) =~= (prev + seq![(g@[i as int], g@[j as int])])
                            + group_pairs_from(g@, i as int, j + 1));
                    }
                    j += 1;
                }
                i += 1;
            }
            proof {
                assert(group_pairs_from(g@, g@.len() as int, g@.len() as int + 1) =~= Seq::empty());
                assert(pairs@ =~= before + group_pairs(g@));
                assert(pairs@ == pairs_upto(self@, k as int + 1));
            }
            k += 1;
        }
        pairs
    }
}

} // verus!
