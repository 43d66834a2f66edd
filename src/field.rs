//! The two grids a player keeps: the ship field with the player's own fleet,
//! and the check field with the marks of the player's shots at an opponent.
use vstd::prelude::*;

use crate::grid::{component, connected, filled, in_bounds, is_square, paint, painted, rows, set_cell};
use crate::conversions::usize_to_coordinate;
use crate::game_constants::{FIELD_SIZE, FIRST_LETTER, LAST_LETTER};
use crate::ship::{Rotation, Ship};
use crate::text::{char_text, decimal, decimal_text};

verus! {

/// State of a cell of a ship field.
#[derive(Debug, Clone, Copy, PartialEq, Eq, Structural)]
pub enum FieldCell {
    Empty,
    Ship,
    EnemyMiss,
    Hit,
    Dead,
}

/// State of a cell of a check field: what the shooter knows of it.
#[derive(Debug, Clone, Copy, PartialEq, Eq, Structural)]
pub enum CheckedCell {
    Unchecked,
    Miss,
    Hit,
    Kill,
}

/// Why a ship may not be placed.
#[derive(Debug, Clone, Copy, PartialEq, Eq, Structural)]
pub enum ShipPlacementError {
    OutOfBoundsX,
    OutOfBoundsY,
    TouchesWithShip(usize, usize),
    NoShipsOfLengthLeft(usize),
}

impl FieldCell {
    /// How the cell is drawn on its owner's board.
    pub open spec fn drawn(self) -> Seq<char> {
        match self {
            FieldCell::Empty => "[ ]"@,
            FieldCell::Ship => "[#]"@,
            FieldCell::EnemyMiss => "[*]"@,
            FieldCell::Hit => "[!]"@,
            FieldCell::Dead => "[X]"@,
        }
    }

    pub fn symbol(&self) -> (r: &'static str)
        ensures
            r@ == self.drawn(),
    {
        match self {
            FieldCell::Empty => "[ ]",
            FieldCell::Ship => "[#]",
            FieldCell::EnemyMiss => "[*]",
            FieldCell::Hit => "[!]",
            FieldCell::Dead => "[X]",
        }
    }
}

impl CheckedCell {
    /// How the mark is drawn on the shooter's board.
    pub open spec fn drawn(self) -> Seq<char> {
        match self {
            CheckedCell::Unchecked => "[ ]"@,
            CheckedCell::Miss => "[*]"@,
            CheckedCell::Hit => "[!]"@,
            CheckedCell::Kill => "[X]"@,
        }
    }

    pub fn symbol(&self) -> (r: &'static str)
        ensures
            r@ == self.drawn(),
    {
        match self {
            CheckedCell::Unchecked => "[ ]",
            CheckedCell::Miss => "[*]",
            CheckedCell::Hit => "[!]",
            CheckedCell::Kill => "[X]",
        }
    }
}

/// How a row is written in a message: its letter when it has one, else its
/// one-based number.
pub open spec fn row_text(y: usize) -> Seq<char> {
    if y <= LAST_LETTER as u32 - FIRST_LETTER as u32 {
        seq![((FIRST_LETTER as u32 + y) as u32) as char]
    } else {
        decimal_text((y + 1) as nat)
    }
}

impl ShipPlacementError {
    /// The text shown to a player.
    pub open spec fn text(self) -> Seq<char> {
        match self {
            ShipPlacementError::OutOfBoundsX => "x was out of bounds! Should be in range 0.."@
                + decimal_text(FIELD_SIZE as nat),
            ShipPlacementError::OutOfBoundsY => "y was out of bounds! Should be in range "@
                + seq![FIRST_LETTER] + ".."@ + seq![LAST_LETTER],
            ShipPlacementError::NoShipsOfLengthLeft(length) => "no ships of length "@
                + decimal_text(length as nat) + " left"@,
            ShipPlacementError::TouchesWithShip(x, y) => "collision with another ship at "@
                + row_text(y) + decimal_text((x + 1) as nat),
        }
    }

    pub fn message(&self) -> (r: String)
        ensures
            r@ == self.text(),
    {
        match self {
            ShipPlacementError::OutOfBoundsX => {
                let mut r = String::from_str("x was out of bounds! Should be in range 0..");
                r.append(decimal(FIELD_SIZE as u128).as_str());
                r
            },
            ShipPlacementError::OutOfBoundsY => {
                let mut r = String::from_str("y was out of bounds! Should be in range ");
                r.append(char_text(FIRST_LETTER).as_str());
                r.append("..");
                r.append(char_text(LAST_LETTER).as_str());
                r
            },
            ShipPlacementError::NoShipsOfLengthLeft(length) => {
                let mut r = String::from_str("no ships of length ");
                r.append(decimal(*length as u128).as_str());
                r.append(" left");
                r
            },
            ShipPlacementError::TouchesWithShip(other_x, other_y) => {
                let mut r = String::from_str("collision with another ship at ");
                if *other_y <= LAST_LETTER as u32 as usize - FIRST_LETTER as u32 as usize {
                    r.append(char_text(usize_to_coordinate(*other_y)).as_str());
                } else {
                    r.append(decimal(*other_y as u128 + 1).as_str());
                }
                r.append(decimal(*other_x as u128 + 1).as_str());
                r
            },
        }
    }
}

/// Mask of the cells marked `Hit`.
pub open spec fn hit_mask(g: Seq<Seq<CheckedCell>>) -> Seq<Seq<bool>> {
    Seq::new(g.len(), |i: int| Seq::new(g[i].len(), |j: int| g[i][j] == CheckedCell::Hit))
}

/// Marks of a kill at `(x, y)`: the cell itself and every `Hit` mark
/// connected to it become `Kill`.
pub open spec fn kill_marked(g: Seq<Seq<CheckedCell>>, x: int, y: int) -> Seq<Seq<CheckedCell>> {
    let h = set_cell(g, x, y, CheckedCell::Hit);
    Seq::new(
        h.len(),
        |i: int|
            Seq::new(
                h[i].len(),
                |j: int| if connected(hit_mask(h), (x, y), (i, j)) { CheckedCell::Kill } else { h[i][j] },
            ),
    )
}

/// The check field after recording `marker` at `(x, y)`.
pub open spec fn marked(g: Seq<Seq<CheckedCell>>, x: int, y: int, marker: CheckedCell) -> Seq<
    Seq<CheckedCell>,
> {
    if marker == CheckedCell::Kill {
        kill_marked(g, x, y)
    } else {
        set_cell(g, x, y, marker)
    }
}

/// The shooter's record of an opponent's field, indexed `[x][y]`.
pub struct CheckField {
    field: Vec<Vec<CheckedCell>>,
}

impl View for CheckField {
    type V = Seq<Seq<CheckedCell>>;

    closed spec fn view(&self) -> Seq<Seq<CheckedCell>> {
        rows(self.field@)
    }
}

impl CheckField {
    pub open spec fn wf(&self) -> bool {
        is_square(self@)
    }

    pub fn new(size: usize) -> (r: CheckField)
        ensures
            r.wf(),
            r@.len() == size,
            forall|i: int, j: int| 0 <= i < size && 0 <= j < size ==> #[trigger] r@[i][j]
                == CheckedCell::Unchecked,
    {
        CheckField { field: filled(size, CheckedCell::Unchecked) }
    }

    /// Side of the field.
    pub fn size(&self) -> (r: usize)
        ensures
            r == self@.len(),
    {
        self.field.len()
    }

    /// Records `marker` at `(x, y)`. A `Kill` also turns into `Kill` every
    /// `Hit` mark connected to `(x, y)`, so the whole sunk ship shows.
    pub fn mark(&mut self, x: usize, y: usize, marker: CheckedCell)
        requires
            old(self).wf(),
            x < old(self)@.len(),
            y < old(self)@.len(),
        ensures
            final(self).wf(),
            final(self)@ == marked(old(self)@, x as int, y as int, marker),
    {
        if marker == CheckedCell::Kill {
            self.mark_kill(x, y);
        } else {
            let ghost g = self@;
            assert(self@[x as int].len() == self@.len());
            self.field[x][y] = marker;
            assert(self@ =~= set_cell(g, x as int, y as int, marker));
            assert(is_square(self@)) by {
                assert forall|i: int| 0 <= i < self@.len() implies #[trigger] self@[i].len() == self@.len() by {
                    assert(g[i].len() == g.len());
                }
            }
        }
    }

    pub fn at(&self, x: usize, y: usize) -> (r: CheckedCell)
        requires
            self.wf(),
            x < self@.len(),
            y < self@.len(),
        ensures
            r == self@[x as int][y as int],
    {
        assert(self@[x as int].len() == self@.len());
        self.field[x][y]
    }

    /// Mask of the cells marked `Hit`.
    fn hits(&self) -> (m: Vec<Vec<bool>>)
        requires
            self.wf(),
        ensures
            m.len() == self@.len(),
            rows(m@) == hit_mask(self@),
    {
        let n = self.field.len();
        let mut m: Vec<Vec<bool>> = Vec::new();
        let mut i: usize = 0;
        while i < n
            invariant
                i <= n,
                n == self@.len(),
                self.wf(),
                m.len() == i,
                forall|k: int| 0 <= k < i ==> #[trigger] m@[k]@ == hit_mask(self@)[k],
            decreases n - i,
        {
            assert(self@[i as int].len() == n);
            let mut row: Vec<bool> = Vec::new();
            let mut j: usize = 0;
            while j < n
                invariant
                    i < n,
                    j <= n,
                    n == self@.len(),
                    self.wf(),
                    self@[i as int].len() == n,
                    row.len() == j,
                    forall|k: int| 0 <= k < j ==> #[trigger] row@[k] == (self@[i as int][k] == CheckedCell::Hit),
                decreases n - j,
            {
                row.push(self.field[i][j] == CheckedCell::Hit);
                j = j + 1;
            }
            assert(row@ =~= hit_mask(self@)[i as int]);
            m.push(row);
            i = i + 1;
        }
        assert(rows(m@) =~= hit_mask(self@));
        m
    }

    fn mark_kill(&mut self, x: usize, y: usize)
        requires
            old(self).wf(),
            x < old(self)@.len(),
            y < old(self)@.len(),
        ensures
            final(self).wf(),
            final(self)@ == kill_marked(old(self)@, x as int, y as int),
    {
        let ghost g = self@;
        assert(self@[x as int].len() == self@.len());
        self.field[x][y] = CheckedCell::Hit;
        let ghost h = set_cell(g, x as int, y as int, CheckedCell::Hit);
        assert(self@ =~= h);
        assert(is_square(h)) by {
            assert forall|i: int| 0 <= i < h.len() implies #[trigger] h[i].len() == h.len() by {
                assert(g[i].len() == g.len());
            }
        }
        let m = self.hits();
        assert(is_square(rows(m@))) by {
            assert forall|i: int| 0 <= i < rows(m@).len() implies #[trigger] rows(m@)[i].len() == rows(m@).len() by {
                assert(h[i].len() == h.len());
            }
        }
        let c = component(&m, x, y);
        paint(&mut self.field, &c, CheckedCell::Kill);
        assert(self@ =~~= kill_marked(g, x as int, y as int)) by {
            assert forall|i: int| 0 <= i < h.len() implies #[trigger] self@[i] =~= kill_marked(g, x as int, y as int)[i] by {
                assert(h[i].len() == h.len());
                assert forall|j: int| 0 <= j < h.len() implies #[trigger] self@[i][j] == kill_marked(g, x as int, y as int)[i][j] by {
                    assert(rows(c@)[i][j] == connected(hit_mask(h), (x as int, y as int), (i, j)));
                }
            }
        }
        assert(is_square(self@)) by {
            assert forall|i: int| 0 <= i < self@.len() implies #[trigger] self@[i].len() == self@.len() by {
                assert(h[i].len() == h.len());
            }
        }
    }
}

/// Cells that belong to a ship, struck or not, but not yet sunk.
pub open spec fn ship_mask(g: Seq<Seq<FieldCell>>) -> Seq<Seq<bool>> {
    Seq::new(
        g.len(),
        |i: int| Seq::new(g[i].len(), |j: int| g[i][j] == FieldCell::Ship || g[i][j] == FieldCell::Hit),
    )
}

/// The field after the ship through `(x, y)` sinks: every `Ship` or `Hit`
/// cell connected to `(x, y)` becomes `Dead`.
pub open spec fn sunk(g: Seq<Seq<FieldCell>>, x: int, y: int) -> Seq<Seq<FieldCell>> {
    Seq::new(
        g.len(),
        |i: int|
            Seq::new(
                g[i].len(),
                |j: int| if connected(ship_mask(g), (x, y), (i, j)) { FieldCell::Dead } else { g[i][j] },
            ),
    )
}

/// Once `(x, y)` is struck, the ship through it still has a cell afloat.
pub open spec fn survives(g: Seq<Seq<FieldCell>>, x: int, y: int) -> bool {
    let h = set_cell(g, x, y, FieldCell::Hit);
    exists|i: int, j: int|
        in_bounds(g.len() as int, (i, j)) && #[trigger] connected(ship_mask(h), (x, y), (i, j))
            && h[i][j] == FieldCell::Ship
}

/// The first cell holding a ship among the neighbourhood of `(x, y)`, the
/// cell itself included, from the `k`-th on. The nine cells are scanned
/// row by row (`y - 1` first), each from `x - 1` to `x + 1`; cells off the
/// grid are skipped.
pub open spec fn touching(g: Seq<Seq<FieldCell>>, x: int, y: int, k: int) -> Option<(int, int)>
    decreases 9 - k,
{
    if k < 0 || k >= 9 {
        None
    } else {
        let p = (x + k % 3 - 1, y + k / 3 - 1);
        if in_bounds(g.len() as int, p) && g[p.0][p.1] == FieldCell::Ship {
            Some(p)
        } else {
            touching(g, x, y, k + 1)
        }
    }
}

/// Whether a ship may cover `(x, y)`.
pub open spec fn cell_placement(g: Seq<Seq<FieldCell>>, x: int, y: int) -> Result<(), ShipPlacementError> {
    if x >= g.len() {
        Err(ShipPlacementError::OutOfBoundsX)
    } else if y >= g.len() {
        Err(ShipPlacementError::OutOfBoundsY)
    } else {
        match touching(g, x, y, 0) {
            Some(p) => Err(ShipPlacementError::TouchesWithShip(p.0 as usize, p.1 as usize)),
            None => Ok(()),
        }
    }
}

/// The cells of `ship` from the `i`-th on, checked in order; the first
/// failure is the answer.
pub open spec fn placement_from(g: Seq<Seq<FieldCell>>, ship: Ship, i: int) -> Result<(), ShipPlacementError>
    decreases ship.length - i,
{
    if i < 0 || i >= ship.length {
        Ok(())
    } else {
        let c = ship.cell(i);
        match cell_placement(g, c.0, c.1) {
            Err(e) => Err(e),
            Ok(_) => placement_from(g, ship, i + 1),
        }
    }
}

/// Whether `ship` may be placed on `g`, and if not, why.
pub open spec fn placement(g: Seq<Seq<FieldCell>>, ship: Ship) -> Result<(), ShipPlacementError> {
    placement_from(g, ship, 0)
}

/// `g` with the cells of `ship` holding a ship.
pub open spec fn placed(g: Seq<Seq<FieldCell>>, ship: Ship) -> Seq<Seq<FieldCell>> {
    Seq::new(
        g.len(),
        |i: int| Seq::new(g[i].len(), |j: int| if ship.covers((i, j)) { FieldCell::Ship } else { g[i][j] }),
    )
}

/// A player's own field, indexed `[x][y]`.
pub struct PlayerField {
    field: Vec<Vec<FieldCell>>,
}

impl View for PlayerField {
    type V = Seq<Seq<FieldCell>>;

    closed spec fn view(&self) -> Seq<Seq<FieldCell>> {
        rows(self.field@)
    }
}

impl PlayerField {
    pub open spec fn wf(&self) -> bool {
        is_square(self@)
    }

    pub fn new(size: usize) -> (r: PlayerField)
        ensures
            r.wf(),
            r@.len() == size,
            forall|i: int, j: int| 0 <= i < size && 0 <= j < size ==> #[trigger] r@[i][j] == FieldCell::Empty,
    {
        PlayerField { field: filled(size, FieldCell::Empty) }
    }

    /// Side of the field.
    pub fn size(&self) -> (r: usize)
        ensures
            r == self@.len(),
    {
        self.field.len()
    }

    pub fn at(&self, x: usize, y: usize) -> (r: FieldCell)
        requires
            self.wf(),
            x < self@.len(),
            y < self@.len(),
        ensures
            r == self@[x as int][y as int],
    {
        assert(self@[x as int].len() == self@.len());
        self.field[x][y]
    }

    pub fn set(&mut self, x: usize, y: usize, value: FieldCell)
        requires
            old(self).wf(),
            x < old(self)@.len(),
            y < old(self)@.len(),
        ensures
            final(self).wf(),
            final(self)@ == set_cell(old(self)@, x as int, y as int, value),
    {
        let ghost g = self@;
        assert(self@[x as int].len() == self@.len());
        self.field[x][y] = value;
        assert(self@ =~= set_cell(g, x as int, y as int, value));
        assert(is_square(self@)) by {
            assert forall|i: int| 0 <= i < self@.len() implies #[trigger] self@[i].len() == self@.len() by {
                assert(g[i].len() == g.len());
            }
        }
    }

    /// Mask of the `Ship` and `Hit` cells.
    fn ship_cells(&self) -> (m: Vec<Vec<bool>>)
        requires
            self.wf(),
        ensures
            m.len() == self@.len(),
            rows(m@) == ship_mask(self@),
            is_square(rows(m@)),
    {
        let n = self.field.len();
        let mut m: Vec<Vec<bool>> = Vec::new();
        let mut i: usize = 0;
        while i < n
            invariant
                i <= n,
                n == self@.len(),
                self.wf(),
                m.len() == i,
                forall|k: int| 0 <= k < i ==> #[trigger] m@[k]@ == ship_mask(self@)[k],
            decreases n - i,
        {
            assert(self@[i as int].len() == n);
            let mut row: Vec<bool> = Vec::new();
            let mut j: usize = 0;
            while j < n
                invariant
                    i < n,
                    j <= n,
                    n == self@.len(),
                    self.wf(),
                    self@[i as int].len() == n,
                    row.len() == j,
                    forall|k: int| 0 <= k < j ==> #[trigger] row@[k] == (self@[i as int][k] == FieldCell::Ship
                        || self@[i as int][k] == FieldCell::Hit),
                decreases n - j,
            {
                let cell = self.field[i][j];
                row.push(cell == FieldCell::Ship || cell == FieldCell::Hit);
                j = j + 1;
            }
            assert(row@ =~= ship_mask(self@)[i as int]);
            m.push(row);
            i = i + 1;
        }
        assert(rows(m@) =~= ship_mask(self@));
        assert(is_square(rows(m@))) by {
            assert forall|i: int| 0 <= i < rows(m@).len() implies #[trigger] rows(m@)[i].len() == rows(m@).len() by {
                assert(self@[i].len() == n);
            }
        }
        m
    }

    /// Sinks the ship through `(x, y)`: every `Ship` or `Hit` cell connected
    /// to it becomes `Dead`. Nothing changes when `(x, y)` holds neither.
    pub fn mark_dead(&mut self, x: usize, y: usize)
        requires
            old(self).wf(),
            x < old(self)@.len(),
            y < old(self)@.len(),
        ensures
            final(self).wf(),
            final(self)@ == sunk(old(self)@, x as int, y as int),
    {
        let ghost g = self@;
        let m = self.ship_cells();
        let c = component(&m, x, y);
        paint(&mut self.field, &c, FieldCell::Dead);
        assert(self@ =~~= sunk(g, x as int, y as int)) by {
            assert forall|i: int| 0 <= i < g.len() implies #[trigger] self@[i] =~= sunk(g, x as int, y as int)[i] by {
                assert(g[i].len() == g.len());
                assert forall|j: int| 0 <= j < g.len() implies #[trigger] self@[i][j] == sunk(g, x as int, y as int)[i][j] by {
                    assert(rows(c@)[i][j] == connected(ship_mask(g), (x as int, y as int), (i, j)));
                }
            }
        }
        assert(is_square(self@)) by {
            assert forall|i: int| 0 <= i < self@.len() implies #[trigger] self@[i].len() == self@.len() by {
                assert(g[i].len() == g.len());
            }
        }
    }

    /// Whether the ship through `(x, y)` keeps a cell afloat once `(x, y)` is
    /// struck: some `Ship` cell, other than `(x, y)`, is connected to it
    /// through `Ship` and `Hit` cells.
    pub fn will_ship_survive_after_shot(&self, x: usize, y: usize) -> (r: bool)
        requires
            self.wf(),
            x < self@.len(),
            y < self@.len(),
        ensures
            r == survives(self@, x as int, y as int),
    {
        let ghost g = self@;
        let ghost h = set_cell(g, x as int, y as int, FieldCell::Hit);
        let n = self.field.len();
        let mut m = self.ship_cells();
        assert(rows(m@)[x as int].len() == n);
        let ghost m0 = rows(m@);
        m[x][y] = true;
        assert(rows(m@) =~= set_cell(m0, x as int, y as int, true));
        assert(rows(m@) =~~= ship_mask(h)) by {
            assert forall|i: int| 0 <= i < n implies #[trigger] rows(m@)[i] =~= ship_mask(h)[i] by {
                assert(g[i].len() == n);
                assert(h[i].len() == n);
                assert(m0[i].len() == n);
                if i == x {
                    assert forall|j: int| 0 <= j < n implies #[trigger] rows(m@)[i][j] == ship_mask(h)[i][j] by {
                        if j != y {
                            assert(h[i][j] == g[i][j]);
                        }
                    }
                } else {
                    assert(h[i] == g[i]);
                }
            }
        }
        assert(is_square(rows(m@))) by {
            assert forall|i: int| 0 <= i < n implies #[trigger] rows(m@)[i].len() == n by {
                assert(g[i].len() == n);
            }
        }
        let c = component(&m, x, y);
        let mut i: usize = 0;
        while i < n
            invariant
                i <= n,
                n == g.len(),
                g == self@,
                self.wf(),
                h == set_cell(g, x as int, y as int, FieldCell::Hit),
                c.len() == n,
                is_square(rows(c@)),
                x < n,
                y < n,
                forall|a: int, b: int| 0 <= a < n && 0 <= b < n ==>
                    #[trigger] rows(c@)[a][b] == connected(ship_mask(h), (x as int, y as int), (a, b)),
                forall|a: int, b: int| 0 <= a < i && 0 <= b < n ==>
                    !(#[trigger] connected(ship_mask(h), (x as int, y as int), (a, b)) && h[a][b] == FieldCell::Ship),
            decreases n - i,
        {
            assert(rows(c@)[i as int].len() == n);
            assert(g[i as int].len() == n);
            let mut j: usize = 0;
            while j < n
                invariant
                    i < n,
                    j <= n,
                    n == g.len(),
                    g == self@,
                    self.wf(),
                    h == set_cell(g, x as int, y as int, FieldCell::Hit),
                    c.len() == n,
                    is_square(rows(c@)),
                    rows(c@)[i as int].len() == n,
                    g[i as int].len() == n,
                    x < n,
                    y < n,
                    forall|a: int, b: int| 0 <= a < n && 0 <= b < n ==>
                        #[trigger] rows(c@)[a][b] == connected(ship_mask(h), (x as int, y as int), (a, b)),
                    forall|a: int, b: int| (0 <= a < i && 0 <= b < n) || (a == i && 0 <= b < j) ==>
                        !(#[trigger] connected(ship_mask(h), (x as int, y as int), (a, b)) && h[a][b] == FieldCell::Ship),
                decreases n - j,
            {
                if c[i][j] && self.field[i][j] == FieldCell::Ship && (i != x || j != y) {
                    assert(rows(c@)[i as int][j as int]);
                    assert(in_bounds(g.len() as int, (i as int, j as int)));
                    return true;
                }
                j = j + 1;
            }
            i = i + 1;
        }
        false
    }

    /// Whether striking `(x, y)` sinks the ship through it.
    pub fn will_ship_die_after_shot(&self, x: usize, y: usize) -> (r: bool)
        requires
            self.wf(),
            x < self@.len(),
            y < self@.len(),
        ensures
            r == !survives(self@, x as int, y as int),
    {
        !self.will_ship_survive_after_shot(x, y)
    }

    pub fn mark_hit(&mut self, x: usize, y: usize)
        requires
            old(self).wf(),
            x < old(self)@.len(),
            y < old(self)@.len(),
        ensures
            final(self).wf(),
            final(self)@ == set_cell(old(self)@, x as int, y as int, FieldCell::Hit),
    {
        self.set(x, y, FieldCell::Hit);
    }

    pub fn mark_enemy_miss(&mut self, x: usize, y: usize)
        requires
            old(self).wf(),
            x < old(self)@.len(),
            y < old(self)@.len(),
        ensures
            final(self).wf(),
            final(self)@ == set_cell(old(self)@, x as int, y as int, FieldCell::EnemyMiss),
    {
        self.set(x, y, FieldCell::EnemyMiss);
    }

    /// Whether `(x, y)` holds an unstruck ship cell.
    pub fn is_ship_on(&self, x: usize, y: usize) -> (r: bool)
        requires
            self.wf(),
            x < self@.len(),
            y < self@.len(),
        ensures
            r == (self@[x as int][y as int] == FieldCell::Ship),
    {
        self.at(x, y) == FieldCell::Ship
    }

    /// Whether a ship may be placed: its cells are checked from the anchor on,
    /// and the first that lies off the grid or touches a ship (diagonally
    /// included) gives the error.
    pub fn can_place(&self, ship: &Ship) -> (r: Result<(), ShipPlacementError>)
        requires
            self.wf(),
        ensures
            r == placement(self@, *ship),
    {
        let n = self.field.len();
        let mut i: usize = 0;
        while i < ship.length
            invariant
                self.wf(),
                n == self@.len(),
                i <= ship.length,
                placement(self@, *ship) == placement_from(self@, *ship, i as int),
                i > 0 ==> in_bounds(n as int, ship.cell(i - 1)),
            decreases ship.length - i,
        {
            let result = match ship.rotation {
                Rotation::Horizontal => self.can_place_on(ship.x + i, ship.y),
                Rotation::Vertical => self.can_place_on(ship.x, ship.y + i),
            };
            match result {
                Err(error) => {
                    return Err(error);
                },
                Ok(()) => {},
            }
            i = i + 1;
        }
        Ok(())
    }

    /// Whether a ship may cover `(x, y)`.
    fn can_place_on(&self, x: usize, y: usize) -> (r: Result<(), ShipPlacementError>)
        requires
            self.wf(),
        ensures
            r == cell_placement(self@, x as int, y as int),
    {
        if self.out_of_bounds(x) {
            return Err(ShipPlacementError::OutOfBoundsX);
        }
        if self.out_of_bounds(y) {
            return Err(ShipPlacementError::OutOfBoundsY);
        }
        let n = self.field.len();
        let mut k: usize = 0;
        while k < 9
            invariant
                self.wf(),
                n == self@.len(),
                x < n,
                y < n,
                k <= 9,
                touching(self@, x as int, y as int, 0) == touching(self@, x as int, y as int, k as int),
            decreases 9 - k,
        {
            let dx = k % 3;
            let dy = k / 3;
            let checked_x = if dx == 0 {
                sub_one(x)
            } else if dx == 1 {
                Some(x)
            } else {
                add_one(x, n)
            };
            let checked_y = if dy == 0 {
                sub_one(y)
            } else if dy == 1 {
                Some(y)
            } else {
                add_one(y, n)
            };
            match (checked_x, checked_y) {
                (Some(a), Some(b)) => {
                    if self.is_ship_on(a, b) {
                        return Err(ShipPlacementError::TouchesWithShip(a, b));
                    }
                },
                _ => {},
            }
            k = k + 1;
        }
        Ok(())
    }

    fn out_of_bounds(&self, coordinate: usize) -> (r: bool)
        ensures
            r == (coordinate >= self@.len()),
    {
        coordinate >= self.field.len()
    }

    /// Puts `ship` on the field. The ship must pass `can_place` first.
    pub fn place_ship(&mut self, ship: &Ship)
        requires
            old(self).wf(),
            placement(old(self)@, *ship) is Ok,
        ensures
            final(self).wf(),
            final(self)@ == placed(old(self)@, *ship),
    {
        let ghost g = self@;
        let n = self.field.len();
        proof {
            lemma_placement_fits(g, *ship, 0);
            assert(placed(g, Ship { length: 0, ..*ship }) =~~= g) by {
                assert forall|p: int| 0 <= p < n implies #[trigger] placed(g, Ship { length: 0, ..*ship })[p] =~= g[p] by {
                    assert(g[p].len() == n);
                }
            }
        }
        let mut i: usize = 0;
        while i < ship.length
            invariant
                self.wf(),
                n == self@.len(),
                g.len() == n,
                is_square(g),
                i <= ship.length,
                ship.fits(n as int),
                self@ == placed(g, Ship { length: i, ..*ship }),
            decreases ship.length - i,
        {
            assert(in_bounds(n as int, ship.cell(i as int)));
            let (a, b) = match ship.rotation {
                Rotation::Horizontal => (ship.x + i, ship.y),
                Rotation::Vertical => (ship.x, ship.y + i),
            };
            assert((a as int, b as int) == ship.cell(i as int));
            let ghost before = self@;
            self.set(a, b, FieldCell::Ship);
            assert(self@ =~~= placed(g, Ship { length: (i + 1) as usize, ..*ship })) by {
                assert forall|p: int| 0 <= p < n implies #[trigger] self@[p] =~= placed(g, Ship { length: (i + 1) as usize, ..*ship })[p] by {
                    assert(g[p].len() == n);
                    assert(before[p].len() == n);
                }
            }
            i = i + 1;
        }
        assert(Ship { length: i, ..*ship } == *ship);
    }
}

/// `q` is `p` or one of the eight cells around it.
pub open spec fn near(p: (int, int), q: (int, int)) -> bool {
    -1 <= q.0 - p.0 <= 1 && -1 <= q.1 - p.1 <= 1
}

/// A cell near `p` holds an unstruck ship.
pub open spec fn ship_near(g: Seq<Seq<FieldCell>>, p: (int, int)) -> bool {
    exists|q: (int, int)|
        near(p, q) && in_bounds(g.len() as int, q) && #[trigger] g[q.0][q.1] == FieldCell::Ship
}

/// A cell near one of the cells of `ship` holds an unstruck ship.
pub open spec fn touches_ship(g: Seq<Seq<FieldCell>>, ship: Ship) -> bool {
    exists|i: int| 0 <= i < ship.length && #[trigger] ship_near(g, ship.cell(i))
}

/// The `k`-th cell of the scan that `touching` makes around `(x, y)`.
spec fn scan(x: int, y: int, k: int) -> (int, int) {
    (x + k % 3 - 1, y + k / 3 - 1)
}

proof fn lemma_touching(g: Seq<Seq<FieldCell>>, x: int, y: int, k: int)
    requires
        0 <= k <= 9,
    ensures
        touching(g, x, y, k) matches Some(p) ==> near((x, y), p) && in_bounds(g.len() as int, p)
            && g[p.0][p.1] == FieldCell::Ship,
        touching(g, x, y, k) is None ==> forall|j: int|
            k <= j < 9 ==> !(in_bounds(g.len() as int, #[trigger] scan(x, y, j)) && g[scan(x, y, j).0][scan(
                x,
                y,
                j,
            ).1] == FieldCell::Ship),
    decreases 9 - k,
{
    if k < 9 {
        lemma_touching(g, x, y, k + 1);
        assert(scan(x, y, k) == (x + k % 3 - 1, y + k / 3 - 1));
        assert(0 <= k % 3 <= 2 && 0 <= k / 3 <= 2);
    }
}

/// The scan around `(x, y)` finds a ship exactly when one is near it.
proof fn lemma_touching_none(g: Seq<Seq<FieldCell>>, x: int, y: int)
    ensures
        touching(g, x, y, 0) is None <==> !ship_near(g, (x, y)),
{
    lemma_touching(g, x, y, 0);
    if ship_near(g, (x, y)) {
        let q = choose|q: (int, int)|
            near((x, y), q) && in_bounds(g.len() as int, q) && #[trigger] g[q.0][q.1] == FieldCell::Ship;
        assert(scan(x, y, 0) == (x - 1, y - 1));
        assert(scan(x, y, 1) == (x, y - 1));
        assert(scan(x, y, 2) == (x + 1, y - 1));
        assert(scan(x, y, 3) == (x - 1, y));
        assert(scan(x, y, 4) == (x, y));
        assert(scan(x, y, 5) == (x + 1, y));
        assert(scan(x, y, 6) == (x - 1, y + 1));
        assert(scan(x, y, 7) == (x, y + 1));
        assert(scan(x, y, 8) == (x + 1, y + 1));
        assert(exists|j: int| 0 <= j < 9 && #[trigger] scan(x, y, j) == q);
    }
}

proof fn lemma_placement_from(g: Seq<Seq<FieldCell>>, ship: Ship, i: int)
    requires
        0 <= i <= ship.length,
        g.len() <= usize::MAX,
    ensures
        placement_from(g, ship, i) matches Err(ShipPlacementError::TouchesWithShip(a, b)) ==> {
            &&& in_bounds(g.len() as int, (a as int, b as int))
            &&& g[a as int][b as int] == FieldCell::Ship
            &&& exists|k: int| i <= k < ship.length && near(#[trigger] ship.cell(k), (a as int, b as int))
        },
        ship.fits(g.len() as int) ==> (placement_from(g, ship, i) is Err <==> exists|k: int|
            i <= k < ship.length && #[trigger] ship_near(g, ship.cell(k))),
        ship.fits(g.len() as int) && placement_from(g, ship, i) is Err ==> placement_from(
            g,
            ship,
            i,
        ) is Err && placement_from(g, ship, i)->Err_0 is TouchesWithShip,
    decreases ship.length - i,
{
    if i < ship.length {
        lemma_placement_from(g, ship, i + 1);
        let c = ship.cell(i);
        lemma_touching(g, c.0, c.1, 0);
        lemma_touching_none(g, c.0, c.1);
        if ship.fits(g.len() as int) {
            assert(in_bounds(g.len() as int, ship.cell(i)));
        }
        match touching(g, c.0, c.1, 0) {
            Some(p) => {
                if c.0 < g.len() && c.1 < g.len() {
                    assert(ship_near(g, c));
                }
            },
            None => {},
        }
    }
}

/// Placement of a ship that lies on the grid fails with `TouchesWithShip`
/// exactly when a cell around one of its cells, diagonals included, holds a
/// ship; and for any ship, a `TouchesWithShip` error names a cell holding a
/// ship around one of the ship's cells.
pub proof fn lemma_touching_rule(g: Seq<Seq<FieldCell>>, ship: Ship)
    requires
        g.len() <= usize::MAX,
    ensures
        ship.fits(g.len() as int) ==> ((placement(g, ship) matches Err(
            ShipPlacementError::TouchesWithShip(_, _),
        )) <==> touches_ship(g, ship)),
        placement(g, ship) matches Err(ShipPlacementError::TouchesWithShip(a, b)) ==> {
            &&& in_bounds(g.len() as int, (a as int, b as int))
            &&& g[a as int][b as int] == FieldCell::Ship
            &&& exists|i: int| 0 <= i < ship.length && near(#[trigger] ship.cell(i), (a as int, b as int))
        },
{
    lemma_placement_from(g, ship, 0);
}

/// A ship that lies on the grid and touches no ship may be placed, and once
/// placed each of its cells holds a ship.
pub proof fn lemma_free_ship_placed(g: Seq<Seq<FieldCell>>, ship: Ship)
    requires
        is_square(g),
        g.len() <= usize::MAX,
        ship.fits(g.len() as int),
        !touches_ship(g, ship),
    ensures
        placement(g, ship) is Ok,
        forall|i: int| 0 <= i < ship.length ==> {
            let c = #[trigger] ship.cell(i);
            placed(g, ship)[c.0][c.1] == FieldCell::Ship
        },
{
    lemma_placement_from(g, ship, 0);
    assert forall|i: int| 0 <= i < ship.length implies {
        let c = #[trigger] ship.cell(i);
        placed(g, ship)[c.0][c.1] == FieldCell::Ship
    } by {
        let c = ship.cell(i);
        assert(in_bounds(g.len() as int, c));
        assert(ship.covers(c));
        assert(g[c.0].len() == g.len());
    }
}

/// A cell whose placement check passes lies on the grid.
proof fn lemma_placement_fits(g: Seq<Seq<FieldCell>>, ship: Ship, i: int)
    requires
        0 <= i <= ship.length,
        placement_from(g, ship, i) is Ok,
    ensures
        forall|k: int| i <= k < ship.length ==> in_bounds(g.len() as int, #[trigger] ship.cell(k)),
        i == 0 ==> ship.fits(g.len() as int),
    decreases ship.length - i,
{
    if i < ship.length {
        lemma_placement_fits(g, ship, i + 1);
        assert(in_bounds(g.len() as int, ship.cell(i)));
    }
}

/// The coordinate before `coordinate`, if there is one.
fn sub_one(coordinate: usize) -> (r: Option<usize>)
    ensures
        r == if coordinate == 0 { None } else { Some((coordinate - 1) as usize) },
{
    if coordinate == 0 {
        None
    } else {
        Some(coordinate - 1)
    }
}

/// The coordinate after `coordinate`, if it is below `bounds`.
fn add_one(coordinate: usize, bounds: usize) -> (r: Option<usize>)
    requires
        coordinate < bounds,
    ensures
        r == if coordinate + 1 == bounds { None } else { Some((coordinate + 1) as usize) },
{
    if coordinate == bounds - 1 {
        None
    } else {
        Some(coordinate + 1)
    }
}

} // verus!
