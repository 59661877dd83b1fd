//! The tile identity, the 120-slot board, and the freedom evaluator.

use rand::seq::SliceRandom;
use vstd::prelude::*;

verus! {

/// Number of rows of the grid.
pub const ROWS: usize = 12;
/// Number of columns of the grid.
pub const COLS: usize = 10;
/// Number of slots of the grid.
pub const SLOTS: usize = 120;

/// A tile identity: `point` is the rank (1..=10 on a real tile) and `kind`
/// the suit (0..=2). The vacant slot is the reserved identity (0, 0).
#[derive(Clone, Copy, PartialEq, Eq, Debug, Structural)]
pub struct Unit {
    pub point: u8,
    pub kind: u8,
}

/// The reserved identity of an empty slot.
pub open spec fn vacant_unit() -> Unit {
    Unit { point: 0, kind: 0 }
}

impl Unit {
    /// Whether this identity is the vacant one.
    pub open spec fn is_vacant(self) -> bool {
        self == vacant_unit()
    }

    /// A well-formed identity is vacant or a real (rank, suit) combination.
    pub open spec fn wf(self) -> bool {
        self.is_vacant() || (1 <= self.point <= 10 && self.kind <= 2)
    }

    /// Build a real tile identity.
    pub fn new(point: u8, kind: u8) -> (r: Unit)
        ensures
            r == (Unit { point, kind }),
    {
        Unit { point, kind }
    }

    /// Build the vacant identity.
    pub fn vacant() -> (r: Unit)
        ensures
            r == vacant_unit(),
    {
        Unit { point: 0, kind: 0 }
    }
}

/// The 30 real tile identities in their canonical order: rank-major, then
/// suit. `ident(k)` is the identity of group `k` for `0 <= k < 30`.
pub open spec fn ident(k: int) -> Unit {
    Unit { point: (k / 3 + 1) as u8, kind: (k % 3) as u8 }
}

/// Distinct group indices name distinct tile identities.
pub proof fn lemma_ident_injective(m: int, k: int)
    requires
        0 <= m < 30,
        0 <= k < 30,
        m != k,
    ensures
        ident(m) != ident(k),
{
    vstd::arithmetic::div_mod::lemma_fundamental_div_mod(m, 3);
    vstd::arithmetic::div_mod::lemma_fundamental_div_mod(k, 3);
}

/// A board is well formed when it fills all 120 slots with well-formed
/// identities.
pub open spec fn board_wf(s: Seq<Unit>) -> bool {
    &&& s.len() == 120
    &&& forall|i: int| 0 <= i < 120 ==> #[trigger] s[i].wf()
}

/// The straight line above position (`row`, `col`) is clear of tiles.
pub open spec fn up_clear(s: Seq<Unit>, row: int, col: int) -> bool {
    forall|i: int| 0 <= i < row ==> #[trigger] s[10 * i + col].is_vacant()
}

/// The straight line below position (`row`, `col`) is clear of tiles.
pub open spec fn down_clear(s: Seq<Unit>, row: int, col: int) -> bool {
    forall|i: int| row < i < 12 ==> #[trigger] s[10 * i + col].is_vacant()
}

/// The straight line left of position (`row`, `col`) is clear of tiles.
pub open spec fn left_clear(s: Seq<Unit>, row: int, col: int) -> bool {
    forall|j: int| 0 <= j < col ==> #[trigger] s[10 * row + j].is_vacant()
}

/// The straight line right of position (`row`, `col`) is clear of tiles.
pub open spec fn right_clear(s: Seq<Unit>, row: int, col: int) -> bool {
    forall|j: int| col < j < 10 ==> #[trigger] s[10 * row + j].is_vacant()
}

/// A position is free when at least one of the four lines from it to the
/// board edge holds no tile. A position on the edge is trivially free
/// through that edge.
pub open spec fn free_at(s: Seq<Unit>, p: int) -> bool {
    let row = p / 10;
    let col = p % 10;
    ||| up_clear(s, row, col)
    ||| down_clear(s, row, col)
    ||| left_clear(s, row, col)
    ||| right_clear(s, row, col)
}

/// A non-vacant tile on the outer edge of the grid is always free: the scan
/// toward that edge has length zero.
pub proof fn lemma_edge_free(s: Seq<Unit>, p: int)
    requires
        0 <= p < 120,
        !s[p].is_vacant(),
        p / 10 == 0 || p / 10 == 11 || p % 10 == 0 || p % 10 == 9,
    ensures
        free_at(s, p),
{
}

/// The single failure of pair removal: the two positions do not hold a
/// matching pair of tiles.
#[derive(Clone, Copy, PartialEq, Eq, Debug, Structural)]
pub enum PairError {
    InvalidPair,
}

/// The 120-slot grid of tile identities. Position `p` sits at row `p / 10`
/// and column `p % 10`.
pub struct State {
    units: Vec<Unit>,
}

impl View for State {
    type V = Seq<Unit>;

    closed spec fn view(&self) -> Seq<Unit> {
        self.units@
    }
}

/// Relies on rand's `SliceRandom::shuffle`: it permutes the slice in place,
/// uniformly at random, so the multiset of elements is unchanged.
#[verifier::external_body]
fn shuffle_units(units: &mut Vec<Unit>)
    ensures
        final(units)@.to_multiset() == old(units)@.to_multiset(),
{
    units.shuffle(&mut rand::rng());
}

impl State {
    /// Build a board from 120 well-formed identities; reject anything else.
    pub fn from_units(units: Vec<Unit>) -> (r: Option<State>)
        ensures
            r is Some <==> board_wf(units@),
            r matches Some(st) ==> st@ == units@,
    {
        if units.len() != 120 {
            return None;
        }
        let mut i: usize = 0;
        while i < 120
            invariant
                units@.len() == 120,
                i <= 120,
                forall|j: int| 0 <= j < i ==> #[trigger] units@[j].wf(),
            decreases 120 - i,
        {
            let u = units[i];
            let ok = (u.point == 0 && u.kind == 0) || (1 <= u.point && u.point <= 10 && u.kind <= 2);
            if !ok {
                assert(!units@[i as int].wf());
                return None;
            }
            i += 1;
        }
        Some(State { units })
    }

    /// The starting configuration: the canonical 120-tile multiset, four
    /// copies of each of the 30 identities, laid out by a uniformly random
    /// permutation over all slots.
    pub fn init() -> (r: State)
        ensures
            board_wf(r@),
            forall|k: int| 0 <= k < 30 ==> #[trigger] r@.to_multiset().count(ident(k)) == 4,
            r@.to_multiset().count(vacant_unit()) == 0,
    {
        broadcast use vstd::seq_lib::group_to_multiset_ensures;

        let mut units: Vec<Unit> = Vec::new();
        let mut k: usize = 0;
        while k < 30
            invariant
                k <= 30,
                units@.len() == 4 * k,
                forall|m: int| 0 <= m < k ==> #[trigger] units@.to_multiset().count(ident(m)) == 4,
                forall|m: int| k <= m < 30 ==> #[trigger] units@.to_multiset().count(ident(m)) == 0,
                units@.to_multiset().count(vacant_unit()) == 0,
                forall|i: int| 0 <= i < units@.len() ==> #[trigger] units@[i].wf(),
            decreases 30 - k,
        {
            let point: u8 = (k / 3 + 1) as u8;
            let kind: u8 = (k % 3) as u8;
            let u = Unit { point, kind };
            assert(u == ident(k as int));
            assert(u.wf() && !u.is_vacant());
            let ghost before = units@;
            units.push(u);
            units.push(u);
            units.push(u);
            units.push(u);
            proof {
                broadcast use vstd::multiset::group_multiset_axioms;

                vstd::seq_lib::to_multiset_build(before, u);
                vstd::seq_lib::to_multiset_build(before.push(u), u);
                vstd::seq_lib::to_multiset_build(before.push(u).push(u), u);
                vstd::seq_lib::to_multiset_build(before.push(u).push(u).push(u), u);
                assert(units@ == before.push(u).push(u).push(u).push(u));
                assert(units@.to_multiset() =~= before.to_multiset().insert(u).insert(u).insert(
                    u).insert(u));
                assert forall|m: int| 0 <= m < 30 && m != k implies units@.to_multiset().count(
                    ident(m)) == before.to_multiset().count(ident(m)) by {
                    lemma_ident_injective(m, k as int);
                }
            }
            k += 1;
        }
        let ghost built = units@;
        shuffle_units(&mut units);
        proof {
            assert(units@.len() == units@.to_multiset().len());
            assert(built.len() == built.to_multiset().len());
            assert forall|i: int| 0 <= i < units@.len() implies (#[trigger] units@[i]).wf() by {
                assert(units@.contains(units@[i]));
                assert(units@.to_multiset().count(units@[i]) > 0);
                assert(built.contains(units@[i]));
                let w = choose|w: int| 0 <= w < built.len() && built[w] == units@[i];
                assert(built[w].wf());
            }
        }
        State { units }
    }

    /// The identity at a position.
    pub fn at(&self, idx: usize) -> (r: Unit)
        requires
            idx < self@.len(),
        ensures
            r == self@[idx as int],
    {
        self.units[idx]
    }

    /// An independent copy of this board: the search explores divergent
    /// futures from one configuration, so copies must not alias.
    pub fn duplicate(&self) -> (r: State)
        ensures
            r@ == self@,
    {
        let mut units: Vec<Unit> = Vec::new();
        let mut i: usize = 0;
        while i < self.units.len()
            invariant
                i <= self@.len(),
                units@ == self@.subrange(0, i as int),
            decreases self@.len() - i,
        {
            units.push(self.units[i]);
            assert(units@ =~= self@.subrange(0, i + 1));
            i += 1;
        }
        assert(units@ =~= self@);
        State { units }
    }

    /// The freedom evaluator: whether the tile at `idx` can be grasped from
    /// an open side, that is, whether some axis direction from `idx` to the
    /// board edge crosses no tile.
    pub fn is_unit_free(&self, idx: u8) -> (r: bool)
        requires
            self@.len() == 120,
            idx < 120,
        ensures
            r == free_at(self@, idx as int),
    {
        let row: usize = (idx / 10) as usize;
        let col: usize = (idx % 10) as usize;

        // up
        if row == 0 {
            return true;
        }
        let mut clear = true;
        let mut i: usize = row;
        while i > 0 && clear
            invariant
                self@.len() == 120,
                row < 12,
                col < 10,
                i <= row,
                clear ==> forall|k: int| i <= k < row ==> #[trigger] self@[10 * k + col as int].is_vacant(),
                !clear ==> !up_clear(self@, row as int, col as int),
            decreases i,
        {
            i -= 1;
            if !(self.units[10 * i + col].point == 0 && self.units[10 * i + col].kind == 0) {
                assert(!self@[10 * (i as int) + col as int].is_vacant());
                clear = false;
            }
        }
        if clear {
            assert(up_clear(self@, row as int, col as int));
            return true;
        }

        // down
        if row == 11 {
            assert(down_clear(self@, row as int, col as int));
            return true;
        }
        let mut clear = true;
        let mut i: usize = row + 1;
        while i < 12 && clear
            invariant
                self@.len() == 120,
                row < 11,
                col < 10,
                row < i <= 12,
                clear ==> forall|k: int| row < k < i ==> #[trigger] self@[10 * k + col as int].is_vacant(),
                !clear ==> !down_clear(self@, row as int, col as int),
            decreases 12 - i,
        {
            if !(self.units[10 * i + col].point == 0 && self.units[10 * i + col].kind == 0) {
                assert(!self@[10 * (i as int) + col as int].is_vacant());
                clear = false;
            }
            i += 1;
        }
        if clear {
            assert(down_clear(self@, row as int, col as int));
            return true;
        }

        // left
        if col == 0 {
            assert(left_clear(self@, row as int, col as int));
            return true;
        }
        let mut clear = true;
        let mut j: usize = col;
        while j > 0 && clear
            invariant
                self@.len() == 120,
                row < 12,
                col < 10,
                j <= col,
                clear ==> forall|k: int| j <= k < col ==> #[trigger] self@[10 * row as int + k].is_vacant(),
                !clear ==> !left_clear(self@, row as int, col as int),
            decreases j,
        {
            j -= 1;
            if !(self.units[10 * row + j].point == 0 && self.units[10 * row + j].kind == 0) {
                assert(!self@[10 * (row as int) + j as int].is_vacant());
                clear = false;
            }
        }
        if clear {
            assert(left_clear(self@, row as int, col as int));
            return true;
        }

        // right
        if col == 9 {
            assert(right_clear(self@, row as int, col as int));
            return true;
        }
        let mut clear = true;
        let mut j: usize = col + 1;
        while j < 10 && clear
            invariant
                self@.len() == 120,
                row < 12,
                col < 9,
                col < j <= 10,
                clear ==> forall|k: int| col < k < j ==> #[trigger] self@[10 * row as int + k].is_vacant(),
                !clear ==> !right_clear(self@, row as int, col as int),
            decreases 10 - j,
        {
            if !(self.units[10 * row + j].point == 0 && self.units[10 * row + j].kind == 0) {
                assert(!self@[10 * (row as int) + j as int].is_vacant());
                clear = false;
            }
            j += 1;
        }
        if clear {
            assert(right_clear(self@, row as int, col as int));
            return true;
        }

        false
    }

    /// All positions that hold a tile and are free, in ascending order.
    pub fn find_free(&self) -> (r: Vec<usize>)
        requires
            self@.len() == 120,
        ensures
            forall|i: int| 0 <= i < r@.len() ==> #[trigger] r@[i] < 120
                && !self@[r@[i] as int].is_vacant() && free_at(self@, r@[i] as int),
            forall|p: int| 0 <= p < 120 && !self@[p].is_vacant() && free_at(self@, p)
                ==> r@.contains(p as usize),
            forall|i: int, j: int| 0 <= i < j < r@.len() ==> r@[i] < r@[j],
    {
        let mut free: Vec<usize> = Vec::new();
        let mut idx: usize = 0;
        while idx < 120
            invariant
                self@.len() == 120,
                idx <= 120,
                forall|i: int| 0 <= i < free@.len() ==> #[trigger] free@[i] < idx
                    && !self@[free@[i] as int].is_vacant() && free_at(self@, free@[i] as int),
                forall|p: int| 0 <= p < idx && !self@[p].is_vacant() && free_at(self@, p)
                    ==> free@.contains(p as usize),
                forall|i: int, j: int| 0 <= i < j < free@.len() ==> free@[i] < free@[j],
            decreases 120 - idx,
        {
            let u = self.units[idx];
            if !(u.point == 0 && u.kind == 0) && self.is_unit_free(idx as u8) {
                let ghost prev = free@;
                free.push(idx);
                proof {
                    assert forall|p: int| 0 <= p < idx + 1 && !self@[p].is_vacant()
                        && free_at(self@, p) implies free@.contains(p as usize) by {
                        if p < idx {
                            let w = choose|w: int| 0 <= w < prev.len() && prev[w] == p as usize;
                            assert(free@[w] == p as usize);
                        } else {
                            assert(free@[free@.len() - 1] == p as usize);
                        }
                    }
                }
            } else {
                assert(u == self@[idx as int]);
            }
            idx += 1;
        }
        free
    }

    /// Remove a matching pair of tiles.
    ///
    /// Fails with `InvalidPair` when a position is out of range, a position
    /// is vacant, or the two identities differ; the board is then unchanged.
    /// On success both slots become vacant and the removed rank is returned.
    pub fn remove_pair(&mut self, pair: (usize, usize)) -> (r: Result<usize, PairError>)
        requires
            old(self)@.len() == 120,
        ensures
            r is Ok <==> pair.0 < 120 && pair.1 < 120
                && old(self)@[pair.0 as int] == old(self)@[pair.1 as int]
                && !old(self)@[pair.0 as int].is_vacant(),
            r matches Ok(p) ==> final(self)@ == old(self)@.update(pair.0 as int, vacant_unit()).update(
                pair.1 as int, vacant_unit())
                && p == old(self)@[pair.0 as int].point as usize,
            r is Err ==> final(self)@ == old(self)@ && r == Err::<usize, PairError>(PairError::InvalidPair),
    {
        let (a, b) = pair;
        if a >= 120 || b >= 120 {
            return Err(PairError::InvalidPair);
        }
        let ua = self.units[a];
        let ub = self.units[b];
        if ua.point == 0 && ua.kind == 0 {
            return Err(PairError::InvalidPair);
        }
        if !(ua.point == ub.point && ua.kind == ub.kind) {
            return Err(PairError::InvalidPair);
        }
        let p = ua.point;
        self.units.set(a, Unit { point: 0, kind: 0 });
        self.units.set(b, Unit { point: 0, kind: 0 });
        Ok(p as usize)
    }
}

} // verus!
