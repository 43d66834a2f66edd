//! A player: an own ship field, and a check field of marks against the
//! opponent.
use vstd::prelude::*;

use crate::field::{
    marked, placed, placement, ship_mask, sunk, survives, CheckField, CheckedCell, FieldCell,
    PlayerField, ShipPlacementError,
};
use crate::grid::{
    adjacent, connected, in_bounds, is_square, lemma_connected_start, lemma_connected_step,
    lemma_reach_stays, member, set_cell,
};
use vstd::set_lib::{lemma_int_range, lemma_len_subset, lemma_subset_equality, set_int_range};
use crate::ship::{Rotation, Ship};

verus! {

#[derive(Debug, Clone, Copy, PartialEq, Eq, Structural)]
pub enum Victory {
    Win,
    NotWin,
}

/// What a shot at `(x, y)` reports, or `None` when the cell was already shot.
pub open spec fn outcome(g: Seq<Seq<FieldCell>>, x: int, y: int) -> Option<CheckedCell> {
    let cell = g[x][y];
    if cell == FieldCell::Empty {
        Some(CheckedCell::Miss)
    } else if cell == FieldCell::Ship {
        if survives(g, x, y) {
            Some(CheckedCell::Hit)
        } else {
            Some(CheckedCell::Kill)
        }
    } else {
        None
    }
}

/// The field after a shot at `(x, y)`: a miss is recorded, a struck ship
/// cell becomes `Hit`, and a ship left with no cell afloat sinks. A cell
/// already shot stays as it is.
pub open spec fn after_shot(g: Seq<Seq<FieldCell>>, x: int, y: int) -> Seq<Seq<FieldCell>> {
    let cell = g[x][y];
    let h = set_cell(g, x, y, FieldCell::Hit);
    if cell == FieldCell::Empty {
        set_cell(g, x, y, FieldCell::EnemyMiss)
    } else if cell == FieldCell::Ship {
        if survives(g, x, y) {
            h
        } else {
            sunk(h, x, y)
        }
    } else {
        g
    }
}

/// The message of a shot at a cell already shot.
pub open spec fn already_shot_message(cell: FieldCell) -> Seq<char> {
    if cell == FieldCell::EnemyMiss {
        "Already shot in this place"@
    } else {
        "Already shot in this place!"@
    }
}

/// No cell holds a ship that is still afloat, struck or not.
pub open spec fn defeated(g: Seq<Seq<FieldCell>>) -> bool {
    forall|i: int, j: int|
        0 <= i < g.len() && 0 <= j < g.len() ==> #[trigger] g[i][j] != FieldCell::Ship && g[i][j]
            != FieldCell::Hit
}

pub struct Player {
    player_field: PlayerField,
    checked_field: CheckField,
}

impl Player {
    /// The player's own field.
    pub closed spec fn own(&self) -> Seq<Seq<FieldCell>> {
        self.player_field@
    }

    /// The player's marks against the opponent.
    pub closed spec fn marks(&self) -> Seq<Seq<CheckedCell>> {
        self.checked_field@
    }

    /// Both fields are square and of one size.
    pub open spec fn wf(&self) -> bool {
        &&& is_square(self.own())
        &&& is_square(self.marks())
        &&& self.marks().len() == self.own().len()
    }

    /// Side of the player's fields.
    pub open spec fn side(&self) -> nat {
        self.own().len()
    }

    pub fn new(player_field_size: usize) -> (r: Player)
        ensures
            r.wf(),
            r.side() == player_field_size,
            forall|i: int, j: int| 0 <= i < player_field_size && 0 <= j < player_field_size ==>
                #[trigger] r.own()[i][j] == FieldCell::Empty && r.marks()[i][j] == CheckedCell::Unchecked,
    {
        let player_field = PlayerField::new(player_field_size);
        let checked_field = CheckField::new(player_field_size);
        Player { player_field, checked_field }
    }

    /// Side of the player's fields.
    pub fn size(&self) -> (r: usize)
        ensures
            r == self.side(),
    {
        self.player_field.size()
    }

    /// The player's own field.
    pub fn player_field(&self) -> (r: &PlayerField)
        ensures
            r@ == self.own(),
    {
        &self.player_field
    }

    /// The player's marks against the opponent.
    pub fn checked_field(&self) -> (r: &CheckField)
        ensures
            r@ == self.marks(),
    {
        &self.checked_field
    }

    /// Whether the whole fleet is sunk: no cell holds a ship afloat.
    pub fn lost(&self) -> (r: bool)
        requires
            self.wf(),
        ensures
            r == defeated(self.own()),
    {
        let n = self.player_field.size();
        let mut x: usize = 0;
        while x < n
            invariant
                self.wf(),
                n == self.side(),
                x <= n,
                forall|i: int, j: int| 0 <= i < x && 0 <= j < n ==> #[trigger] self.own()[i][j]
                    != FieldCell::Ship && self.own()[i][j] != FieldCell::Hit,
            decreases n - x,
        {
            let mut y: usize = 0;
            while y < n
                invariant
                    self.wf(),
                    n == self.side(),
                    x < n,
                    y <= n,
                    forall|i: int, j: int| (0 <= i < x && 0 <= j < n) || (i == x && 0 <= j < y) ==>
                        #[trigger] self.own()[i][j] != FieldCell::Ship && self.own()[i][j] != FieldCell::Hit,
                decreases n - y,
            {
                let cell = self.player_field.at(x, y);
                if cell == FieldCell::Ship || cell == FieldCell::Hit {
                    return false;
                }
                y = y + 1;
            }
            x = x + 1;
        }
        true
    }

    /// Puts `ship` on the player's field. The ship must pass `can_place` first.
    pub fn place_ship(&mut self, ship: &Ship)
        requires
            old(self).wf(),
            placement(old(self).own(), *ship) is Ok,
        ensures
            final(self).wf(),
            final(self).own() == placed(old(self).own(), *ship),
            final(self).marks() == old(self).marks(),
    {
        self.player_field.place_ship(ship);
    }

    pub fn can_place(&self, ship: &Ship) -> (r: Result<(), ShipPlacementError>)
        requires
            self.wf(),
        ensures
            r == placement(self.own(), *ship),
    {
        self.player_field.can_place(ship)
    }

    /// Resolves an opponent's shot at `(x, y)` on the player's own field.
    pub fn take_damage(&mut self, x: usize, y: usize) -> (r: Result<CheckedCell, String>)
        requires
            old(self).wf(),
            x < old(self).side(),
            y < old(self).side(),
        ensures
            final(self).wf(),
            final(self).own() == after_shot(old(self).own(), x as int, y as int),
            final(self).marks() == old(self).marks(),
            r is Ok <==> outcome(old(self).own(), x as int, y as int) is Some,
            r matches Ok(c) ==> outcome(old(self).own(), x as int, y as int) == Some(c),
            r matches Err(message) ==> message@ == already_shot_message(old(self).own()[x as int][y as int]),
    {
        let shot_cell = self.player_field.at(x, y);
        match shot_cell {
            FieldCell::Ship => {
                let survives = self.player_field.will_ship_survive_after_shot(x, y);
                self.player_field.mark_hit(x, y);
                if !survives {
                    self.player_field.mark_dead(x, y);
                    return Ok(CheckedCell::Kill);
                }
                Ok(CheckedCell::Hit)
            },
            FieldCell::EnemyMiss => Err(String::from_str("Already shot in this place")),
            FieldCell::Hit => Err(String::from_str("Already shot in this place!")),
            FieldCell::Dead => Err(String::from_str("Already shot in this place!")),
            FieldCell::Empty => {
                self.player_field.mark_enemy_miss(x, y);
                Ok(CheckedCell::Miss)
            },
        }
    }

    /// Shoots at `(x, y)` on the opponent's field, records the result on the
    /// player's check field, and reports whether the opponent is defeated.
    pub fn shoot(&mut self, opponent: &mut Player, x: usize, y: usize) -> (r: Result<Victory, String>)
        requires
            old(self).wf(),
            old(opponent).wf(),
            x < old(self).side(),
            y < old(self).side(),
            x < old(opponent).side(),
            y < old(opponent).side(),
        ensures
            final(self).wf(),
            final(opponent).wf(),
            final(self).own() == old(self).own(),
            final(opponent).marks() == old(opponent).marks(),
            final(opponent).own() == after_shot(old(opponent).own(), x as int, y as int),
            match outcome(old(opponent).own(), x as int, y as int) {
                Some(c) => {
                    &&& final(self).marks() == marked(old(self).marks(), x as int, y as int, c)
                    &&& r == Ok::<Victory, String>(
                        if defeated(final(opponent).own()) { Victory::Win } else { Victory::NotWin },
                    )
                },
                None => {
                    &&& final(self).marks() == old(self).marks()
                    &&& r matches Err(message) && message@ == already_shot_message(
                        old(opponent).own()[x as int][y as int],
                    )
                },
            },
    {
        match opponent.take_damage(x, y) {
            Ok(hit_result) => {
                self.checked_field.mark(x, y, hit_result);
                if opponent.lost() {
                    Ok(Victory::Win)
                } else {
                    Ok(Victory::NotWin)
                }
            },
            Err(message) => Err(message),
        }
    }
}

/// No cell outside `ship` that shares an edge with one of its cells holds a
/// ship, struck or not.
pub open spec fn lone(g: Seq<Seq<FieldCell>>, ship: Ship) -> bool {
    forall|i: int, q: (int, int)|
        0 <= i < ship.length && #[trigger] adjacent(ship.cell(i), q) && in_bounds(g.len() as int, q)
            && !ship.covers(q) ==> g[q.0][q.1] != FieldCell::Ship && g[q.0][q.1] != FieldCell::Hit
}

/// The field after shooting, in turn, the cells `order[0]`, ...,
/// `order[k - 1]` of `ship`.
pub open spec fn fired(g: Seq<Seq<FieldCell>>, ship: Ship, order: Seq<int>, k: int) -> Seq<
    Seq<FieldCell>,
>
    decreases k,
{
    if k <= 0 {
        g
    } else {
        let c = ship.cell(order[k - 1]);
        after_shot(fired(g, ship, order, k - 1), c.0, c.1)
    }
}

/// Of `n` distinct numbers below `n`, the first `k` leave one out exactly
/// when `k < n`.
proof fn lemma_unshot_left(order: Seq<int>, n: int, k: int)
    requires
        order.no_duplicates(),
        order.len() == n,
        forall|j: int| 0 <= j < n ==> 0 <= #[trigger] order[j] < n,
        0 <= k <= n,
    ensures
        k < n <==> exists|i: int| 0 <= i < n && !order.take(k).contains(i),
{
    lemma_int_range(0, n);
    let prefix = order.take(k);
    if k < n {
        if forall|i: int| 0 <= i < n ==> prefix.contains(i) {
            prefix.lemma_cardinality_of_set();
            assert(set_int_range(0, n).subset_of(prefix.to_set()));
            lemma_len_subset(set_int_range(0, n), prefix.to_set());
        }
    } else {
        assert(prefix =~= order);
        order.unique_seq_to_set();
        assert(order.to_set().subset_of(set_int_range(0, n)));
        lemma_subset_equality(order.to_set(), set_int_range(0, n));
        assert forall|i: int| 0 <= i < n implies prefix.contains(i) by {
            assert(set_int_range(0, n).contains(i));
        }
    }
}

/// Two cells of a ship whose cells are all set are connected along it.
proof fn lemma_ship_connected(m: Seq<Seq<bool>>, ship: Ship, a: int, b: int)
    requires
        0 <= a < ship.length,
        0 <= b < ship.length,
        forall|i: int| 0 <= i < ship.length ==> member(m, #[trigger] ship.cell(i)),
    ensures
        connected(m, ship.cell(a), ship.cell(b)),
    decreases if a <= b { b - a } else { a - b },
{
    if a == b {
        lemma_connected_start(m, ship.cell(a));
    } else if a < b {
        lemma_ship_connected(m, ship, a, b - 1);
        lemma_connected_step(m, ship.cell(a), ship.cell(b - 1), ship.cell(b));
    } else {
        lemma_ship_connected(m, ship, a, b + 1);
        lemma_connected_step(m, ship.cell(a), ship.cell(b + 1), ship.cell(b));
    }
}

/// The index of a cell that `ship` covers.
spec fn index_in(ship: Ship, p: (int, int)) -> int {
    match ship.rotation {
        Rotation::Horizontal => p.0 - ship.x,
        Rotation::Vertical => p.1 - ship.y,
    }
}

/// A lone ship whose cells are all afloat, struck or not, is the whole
/// component of each of its cells.
proof fn lemma_lone_component(h: Seq<Seq<FieldCell>>, ship: Ship, a: int)
    requires
        is_square(h),
        ship.fits(h.len() as int),
        forall|i: int| 0 <= i < ship.length ==> {
            let c = #[trigger] ship.cell(i);
            h[c.0][c.1] == FieldCell::Ship || h[c.0][c.1] == FieldCell::Hit
        },
        lone(h, ship),
        0 <= a < ship.length,
    ensures
        forall|p: (int, int)| #[trigger] connected(ship_mask(h), ship.cell(a), p) <==> ship.covers(p),
{
    let m = ship_mask(h);
    assert forall|i: int| 0 <= i < ship.length implies member(m, #[trigger] ship.cell(i)) by {
        let c = ship.cell(i);
        assert(in_bounds(h.len() as int, c));
        assert(h[c.0].len() == h.len());
    }
    let inside = |q: (int, int)| ship.covers(q);
    assert forall|p: (int, int), q: (int, int)|
        #![trigger inside(p), member(m, q)]
        inside(p) && adjacent(p, q) && member(m, q) implies inside(q) by {
        let i = index_in(ship, p);
        assert(ship.cell(i) == p);
        assert(adjacent(ship.cell(i), q));
        assert(h[q.0].len() == h.len());
    }
    assert forall|p: (int, int)| #[trigger] connected(m, ship.cell(a), p) <==> ship.covers(p) by {
        if ship.covers(p) {
            let b = index_in(ship, p);
            assert(ship.cell(b) == p);
            lemma_ship_connected(m, ship, a, b);
        }
        if connected(m, ship.cell(a), p) {
            lemma_reach_stays(m, ship.cell(a), p, inside);
        }
    }
}

/// `order` lists each cell of `ship` once, by index, and `ship` stands
/// alone and unstruck on `g`.
pub open spec fn fresh_ship_and_order(g: Seq<Seq<FieldCell>>, ship: Ship, order: Seq<int>) -> bool {
    &&& is_square(g)
    &&& ship.length >= 1
    &&& ship.fits(g.len() as int)
    &&& lone(g, ship)
    &&& forall|i: int| 0 <= i < ship.length ==> {
        let c = #[trigger] ship.cell(i);
        g[c.0][c.1] == FieldCell::Ship
    }
    &&& order.len() == ship.length
    &&& order.no_duplicates()
    &&& forall|j: int| 0 <= j < order.len() ==> 0 <= #[trigger] order[j] < ship.length
}

/// `s` is `g` once the cells `order[0]`, ..., `order[k - 1]` of `ship` are
/// struck and the ship is still afloat.
spec fn struck_state(g: Seq<Seq<FieldCell>>, ship: Ship, order: Seq<int>, k: int, s: Seq<Seq<FieldCell>>) -> bool {
    &&& s.len() == g.len()
    &&& is_square(s)
    &&& forall|p: (int, int)|
        in_bounds(g.len() as int, p) && !ship.covers(p) ==> #[trigger] s[p.0][p.1] == g[p.0][p.1]
    &&& forall|i: int| 0 <= i < ship.length ==> {
        let c = #[trigger] ship.cell(i);
        s[c.0][c.1] == if order.take(k).contains(i) { FieldCell::Hit } else { FieldCell::Ship }
    }
}

/// Striking the next cell of the order: a hit while another cell stays
/// unstruck, else a kill that sinks the whole ship.
proof fn lemma_strike(g: Seq<Seq<FieldCell>>, ship: Ship, order: Seq<int>, k: int, s: Seq<Seq<FieldCell>>)
    requires
        fresh_ship_and_order(g, ship, order),
        0 <= k < ship.length,
        struck_state(g, ship, order, k, s),
    ensures
        ({
            let c = ship.cell(order[k]);
            &&& k + 1 < ship.length ==> {
                &&& outcome(s, c.0, c.1) == Some(CheckedCell::Hit)
                &&& struck_state(g, ship, order, k + 1, after_shot(s, c.0, c.1))
            }
            &&& k + 1 == ship.length ==> {
                &&& outcome(s, c.0, c.1) == Some(CheckedCell::Kill)
                &&& forall|i: int| 0 <= i < ship.length ==> {
                    let d = #[trigger] ship.cell(i);
                    after_shot(s, c.0, c.1)[d.0][d.1] == FieldCell::Dead
                }
            }
        }),
{
    let n = g.len() as int;
    let a = order[k];
    let c = ship.cell(a);
    let before = order.take(k);
    let upto = order.take(k + 1);
    assert(upto =~= before.push(a));
    assert(!before.contains(a)) by {
        if before.contains(a) {
            let j = choose|j: int| 0 <= j < before.len() && before[j] == a;
            assert(order[j] == order[k]);
        }
    }
    assert(in_bounds(n, c));
    assert(s[c.0][c.1] == FieldCell::Ship);
    let h = set_cell(s, c.0, c.1, FieldCell::Hit);
    assert(is_square(h)) by {
        assert forall|i: int| 0 <= i < h.len() implies #[trigger] h[i].len() == h.len() by {
            assert(s[i].len() == s.len());
        }
    }
    assert forall|i: int| 0 <= i < ship.length implies {
        let d = #[trigger] ship.cell(i);
        h[d.0][d.1] == if upto.contains(i) { FieldCell::Hit } else { FieldCell::Ship }
    } by {
        let d = ship.cell(i);
        assert(in_bounds(n, d));
        assert(s[d.0].len() == s.len());
        assert(s[c.0].len() == s.len());
        if i == a {
            assert(upto[k] == a);
        } else {
            assert(d != c);
            assert(h[d.0][d.1] == s[d.0][d.1]);
            assert(upto.contains(i) == before.contains(i)) by {
                if before.contains(i) {
                    let j = choose|j: int| 0 <= j < before.len() && before[j] == i;
                    assert(upto[j] == i);
                }
                if upto.contains(i) {
                    let j = choose|j: int| 0 <= j < upto.len() && upto[j] == i;
                    assert(j < before.len());
                    assert(before[j] == i);
                }
            }
        }
    }
    assert forall|p: (int, int)| in_bounds(n, p) && !ship.covers(p) implies #[trigger] h[p.0][p.1] == g[p.0][p.1] by {
        assert(ship.covers(c));
        assert(s[p.0][p.1] == g[p.0][p.1]);
    }
    assert(lone(h, ship)) by {
        assert forall|i: int, q: (int, int)|
            0 <= i < ship.length && #[trigger] adjacent(ship.cell(i), q) && in_bounds(h.len() as int, q)
                && !ship.covers(q) implies h[q.0][q.1] != FieldCell::Ship && h[q.0][q.1] != FieldCell::Hit by {
            assert(h[q.0][q.1] == g[q.0][q.1]);
        }
    }
    lemma_lone_component(h, ship, a);
    lemma_unshot_left(order, ship.length as int, k + 1);
    assert(survives(s, c.0, c.1) <==> exists|i: int| 0 <= i < ship.length && !upto.contains(i)) by {
        if survives(s, c.0, c.1) {
            let (x, y) = choose|x: int, y: int|
                in_bounds(n, (x, y)) && #[trigger] connected(ship_mask(h), c, (x, y)) && h[x][y]
                    == FieldCell::Ship;
            assert(ship.covers((x, y)));
            let b = index_in(ship, (x, y));
            assert(ship.cell(b) == (x, y));
            assert(!upto.contains(b));
        }
        if exists|i: int| 0 <= i < ship.length && !upto.contains(i) {
            let b = choose|b: int| 0 <= b < ship.length && !upto.contains(b);
            let d = ship.cell(b);
            assert(in_bounds(n, d));
            assert(ship.covers(d));
            assert(connected(ship_mask(h), c, d));
            assert(h[d.0][d.1] == FieldCell::Ship);
        }
    }
    if k + 1 < ship.length {
        assert(after_shot(s, c.0, c.1) == h);
    } else {
        let t = after_shot(s, c.0, c.1);
        assert(t == crate::field::sunk(h, c.0, c.1));
        assert forall|i: int| 0 <= i < ship.length implies {
            let d = #[trigger] ship.cell(i);
            t[d.0][d.1] == FieldCell::Dead
        } by {
            let d = ship.cell(i);
            assert(in_bounds(n, d));
            assert(ship.covers(d));
            assert(connected(ship_mask(h), c, d));
            assert(h[d.0].len() == h.len());
        }
    }
}

proof fn lemma_fired_start(g: Seq<Seq<FieldCell>>, ship: Ship, order: Seq<int>)
    requires
        fresh_ship_and_order(g, ship, order),
    ensures
        struck_state(g, ship, order, 0, g),
{
    assert(order.take(0) =~= Seq::<int>::empty());
}

proof fn lemma_fired_prefix(g: Seq<Seq<FieldCell>>, ship: Ship, order: Seq<int>, k: int)
    requires
        fresh_ship_and_order(g, ship, order),
        0 <= k < ship.length,
    ensures
        struck_state(g, ship, order, k, fired(g, ship, order, k)),
        forall|j: int| 0 <= j < k ==> {
            let c = #[trigger] ship.cell(order[j]);
            outcome(fired(g, ship, order, j), c.0, c.1) == Some(CheckedCell::Hit)
        },
    decreases k,
{
    if k == 0 {
        lemma_fired_start(g, ship, order);
    } else {
        let prev = fired(g, ship, order, k - 1);
        lemma_fired_prefix(g, ship, order, k - 1);
        lemma_strike(g, ship, order, k - 1, prev);
        let c = ship.cell(order[k - 1]);
        assert(fired(g, ship, order, k) == after_shot(prev, c.0, c.1));
        assert forall|j: int| 0 <= j < k implies {
            let d = #[trigger] ship.cell(order[j]);
            outcome(fired(g, ship, order, j), d.0, d.1) == Some(CheckedCell::Hit)
        } by {
            if j == k - 1 {
                assert(outcome(prev, c.0, c.1) == Some(CheckedCell::Hit));
            }
        }
    }
}

/// Shooting every cell of a lone, unstruck ship once, in any order: every
/// shot but the last reports `Hit`, the last reports `Kill`, and then every
/// cell of the ship is `Dead`.
pub proof fn lemma_ship_sinks_on_last_shot(g: Seq<Seq<FieldCell>>, ship: Ship, order: Seq<int>)
    requires
        fresh_ship_and_order(g, ship, order),
    ensures
        forall|k: int| 0 <= k < ship.length - 1 ==> {
            let c = #[trigger] ship.cell(order[k]);
            outcome(fired(g, ship, order, k), c.0, c.1) == Some(CheckedCell::Hit)
        },
        ({
            let c = ship.cell(order[ship.length - 1]);
            outcome(fired(g, ship, order, ship.length - 1), c.0, c.1) == Some(CheckedCell::Kill)
        }),
        forall|i: int| 0 <= i < ship.length ==> {
            let d = #[trigger] ship.cell(i);
            fired(g, ship, order, ship.length as int)[d.0][d.1] == FieldCell::Dead
        },
{
    let last = ship.length - 1;
    lemma_fired_prefix(g, ship, order, last);
    lemma_strike(g, ship, order, last, fired(g, ship, order, last));
}

/// A shot at a cell with no ship is a miss, and the cell then reads
/// `EnemyMiss`.
pub proof fn lemma_shot_at_water(g: Seq<Seq<FieldCell>>, x: int, y: int)
    requires
        is_square(g),
        in_bounds(g.len() as int, (x, y)),
        g[x][y] == FieldCell::Empty,
    ensures
        outcome(g, x, y) == Some(CheckedCell::Miss),
        after_shot(g, x, y)[x][y] == FieldCell::EnemyMiss,
{
    assert(g[x].len() == g.len());
}

/// A shot at a cell already shot (a miss, a hit or a sunk ship) is refused
/// and leaves the field as it was.
pub proof fn lemma_shot_again(g: Seq<Seq<FieldCell>>, x: int, y: int)
    requires
        g[x][y] == FieldCell::EnemyMiss || g[x][y] == FieldCell::Hit || g[x][y] == FieldCell::Dead,
    ensures
        outcome(g, x, y) is None,
        after_shot(g, x, y) == g,
{
}

/// A player has lost exactly when every cell that ever held a ship has
/// been sunk.
pub proof fn lemma_lost_when_all_sunk(g: Seq<Seq<FieldCell>>)
    ensures
        defeated(g) <==> forall|i: int, j: int|
            0 <= i < g.len() && 0 <= j < g.len() && (g[i][j] == FieldCell::Ship || g[i][j] == FieldCell::Hit
                || #[trigger] g[i][j] == FieldCell::Dead) ==> g[i][j] == FieldCell::Dead,
{
}

} // verus!
