//! Square grids addressed by `(x, y)`, and connectivity through the four
//! axis-aligned neighbours of a cell.
use vstd::prelude::*;

verus! {

/// The rows of a grid held as nested vectors.
pub open spec fn rows<T>(v: Seq<Vec<T>>) -> Seq<Seq<T>> {
    v.map_values(|r: Vec<T>| r@)
}

/// Every row is as long as the grid has rows.
pub open spec fn is_square<T>(g: Seq<Seq<T>>) -> bool {
    forall|i: int| 0 <= i < g.len() ==> #[trigger] g[i].len() == g.len()
}

pub open spec fn in_bounds(n: int, p: (int, int)) -> bool {
    0 <= p.0 < n && 0 <= p.1 < n
}

/// `p` and `q` share an edge (north, east, south or west; no diagonals).
pub open spec fn adjacent(p: (int, int), q: (int, int)) -> bool {
    ||| p.0 == q.0 && (p.1 == q.1 + 1 || q.1 == p.1 + 1)
    ||| p.1 == q.1 && (p.0 == q.0 + 1 || q.0 == p.0 + 1)
}

/// The cell `p` lies in the grid and is set in the mask `m`.
pub open spec fn member(m: Seq<Seq<bool>>, p: (int, int)) -> bool {
    0 <= p.0 < m.len() && 0 <= p.1 < m[p.0].len() && m[p.0][p.1]
}

/// A non-empty walk through set cells, each step to an adjacent cell.
pub open spec fn is_path(m: Seq<Seq<bool>>, path: Seq<(int, int)>) -> bool {
    &&& path.len() > 0
    &&& forall|i: int| 0 <= i < path.len() ==> member(m, #[trigger] path[i])
    &&& forall|i: int| 0 <= i < path.len() - 1 ==> adjacent(#[trigger] path[i], path[i + 1])
}

/// `t` can be reached from `s` through set cells of `m`.
pub open spec fn connected(m: Seq<Seq<bool>>, s: (int, int), t: (int, int)) -> bool {
    exists|path: Seq<(int, int)>| #[trigger] is_path(m, path) && path[0] == s && path.last() == t
}

/// Number of cells of a row that are not set.
pub open spec fn unset_in_row(r: Seq<bool>) -> nat
    decreases r.len(),
{
    if r.len() == 0 {
        0
    } else {
        unset_in_row(r.drop_last()) + if r.last() { 0nat } else { 1nat }
    }
}

/// Number of cells of a grid that are not set.
pub open spec fn unset_in_grid(g: Seq<Seq<bool>>) -> nat
    decreases g.len(),
{
    if g.len() == 0 {
        0
    } else {
        unset_in_grid(g.drop_last()) + unset_in_row(g.last())
    }
}

proof fn lemma_unset_in_row_update(r: Seq<bool>, j: int)
    requires
        0 <= j < r.len(),
        !r[j],
    ensures
        unset_in_row(r.update(j, true)) + 1 == unset_in_row(r),
    decreases r.len(),
{
    let u = r.update(j, true);
    if j == r.len() - 1 {
        assert(u.drop_last() =~= r.drop_last());
    } else {
        assert(u.drop_last() =~= r.drop_last().update(j, true));
        lemma_unset_in_row_update(r.drop_last(), j);
    }
}

proof fn lemma_unset_in_grid_update(g: Seq<Seq<bool>>, i: int, j: int)
    requires
        0 <= i < g.len(),
        0 <= j < g[i].len(),
        !g[i][j],
    ensures
        unset_in_grid(g.update(i, g[i].update(j, true))) + 1 == unset_in_grid(g),
    decreases g.len(),
{
    let u = g.update(i, g[i].update(j, true));
    if i == g.len() - 1 {
        assert(u.drop_last() =~= g.drop_last());
        lemma_unset_in_row_update(g[i], j);
    } else {
        assert(u.drop_last() =~= g.drop_last().update(i, g[i].update(j, true)));
        lemma_unset_in_grid_update(g.drop_last(), i, j);
    }
}

/// A walk that ends next to a set cell can be extended to it.
pub proof fn lemma_connected_step(m: Seq<Seq<bool>>, s: (int, int), p: (int, int), q: (int, int))
    requires
        connected(m, s, p),
        adjacent(p, q),
        member(m, q),
    ensures
        connected(m, s, q),
{
    let path = choose|path: Seq<(int, int)>| #[trigger] is_path(m, path) && path[0] == s && path.last() == p;
    let longer = path.push(q);
    assert forall|i: int| 0 <= i < longer.len() - 1 implies adjacent(#[trigger] longer[i], longer[i + 1]) by {
        if i < path.len() - 1 {
            assert(longer[i] == path[i] && longer[i + 1] == path[i + 1]);
        }
    }
    assert(is_path(m, longer));
}

pub proof fn lemma_connected_start(m: Seq<Seq<bool>>, s: (int, int))
    requires
        member(m, s),
    ensures
        connected(m, s, s),
{
    assert(is_path(m, seq![s]));
}

/// Each set neighbour of `(i, j)` is set in `seen`.
pub open spec fn closed_at(m: Seq<Seq<bool>>, seen: Seq<Seq<bool>>, i: int, j: int) -> bool {
    &&& member(m, (i - 1, j)) ==> member(seen, (i - 1, j))
    &&& member(m, (i + 1, j)) ==> member(seen, (i + 1, j))
    &&& member(m, (i, j - 1)) ==> member(seen, (i, j - 1))
    &&& member(m, (i, j + 1)) ==> member(seen, (i, j + 1))
}

/// A square grid of `n` rows of `n` cells, each `v`.
pub fn filled<T: Copy>(n: usize, v: T) -> (g: Vec<Vec<T>>)
    ensures
        g.len() == n,
        is_square(rows(g@)),
        forall|i: int, j: int| 0 <= i < n && 0 <= j < n ==> #[trigger] rows(g@)[i][j] == v,
{
    let mut g: Vec<Vec<T>> = Vec::new();
    let mut i: usize = 0;
    while i < n
        invariant
            i <= n,
            g.len() == i,
            forall|k: int| 0 <= k < i ==> (#[trigger] g@[k]@).len() == n,
            forall|k: int, j: int| 0 <= k < i && 0 <= j < n ==> #[trigger] g@[k]@[j] == v,
        decreases n - i,
    {
        let mut row: Vec<T> = Vec::new();
        let mut j: usize = 0;
        while j < n
            invariant
                j <= n,
                row.len() == j,
                forall|k: int| 0 <= k < j ==> #[trigger] row@[k] == v,
            decreases n - j,
        {
            row.push(v);
            j = j + 1;
        }
        g.push(row);
        i = i + 1;
    }
    g
}

/// `later` keeps `earlier` as a prefix and holds every cell that was added
/// to `before` on the way to `after`.
spec fn tracked_by(
    before: Seq<Seq<bool>>,
    after: Seq<Seq<bool>>,
    earlier: Seq<(usize, usize)>,
    later: Seq<(usize, usize)>,
) -> bool {
    &&& earlier.len() <= later.len()
    &&& forall|k: int| 0 <= k < earlier.len() ==> later[k] == #[trigger] earlier[k]
    &&& forall|i: int, j: int|
        0 <= i < after.len() && 0 <= j < after.len() && #[trigger] after[i][j] && !before[i][j]
            ==> later.contains((i as usize, j as usize))
}

proof fn lemma_tracked_step(
    before: Seq<Seq<bool>>,
    mid: Seq<Seq<bool>>,
    after: Seq<Seq<bool>>,
    earlier: Seq<(usize, usize)>,
    l1: Seq<(usize, usize)>,
    l2: Seq<(usize, usize)>,
    a: usize,
    b: usize,
)
    requires
        tracked_by(before, mid, earlier, l1),
        mid.len() == after.len(),
        forall|i: int, j: int| 0 <= i < after.len() && 0 <= j < after.len() && #[trigger] after[i][j]
            ==> mid[i][j] || (i == a && j == b),
        l2 == l1.push((a, b)) || (l2 == l1 && after == mid),
    ensures
        tracked_by(before, after, earlier, l2),
{
    if l2 == l1.push((a, b)) {
        assert(l2[l2.len() - 1] == (a, b));
        assert forall|i: int, j: int|
            0 <= i < after.len() && 0 <= j < after.len() && #[trigger] after[i][j] && !before[i][j]
                implies l2.contains((i as usize, j as usize)) by {
            if mid[i][j] {
                let k = choose|k: int| 0 <= k < l1.len() && l1[k] == (i as usize, j as usize);
                assert(l2[k] == l1[k]);
            }
        }
    }
}

/// `(a, b)` is set in `m` and not yet in `seen`.
pub open spec fn newly_set(m: Seq<Seq<bool>>, seen: Seq<Seq<bool>>, a: int, b: int) -> bool {
    m[a][b] && !seen[a][b]
}

/// Marks `(a, b)` as seen, and stacks it, when it is set in `m` and was not
/// seen yet.
fn visit(
    m: &Vec<Vec<bool>>,
    seen: &mut Vec<Vec<bool>>,
    stack: &mut Vec<(usize, usize)>,
    a: usize,
    b: usize,
)
    requires
        is_square(rows(m@)),
        old(seen).len() == m.len(),
        is_square(rows(old(seen)@)),
        a < m.len(),
        b < m.len(),
    ensures
        final(seen).len() == m.len(),
        is_square(rows(final(seen)@)),
        forall|i: int, j: int| 0 <= i < m.len() && 0 <= j < m.len() ==>
            #[trigger] rows(final(seen)@)[i][j]
                == (rows(old(seen)@)[i][j] || (i == a && j == b && rows(m@)[i][j])),
        newly_set(rows(m@), rows(old(seen)@), a as int, b as int) ==> {
            &&& final(stack)@ == old(stack)@.push((a, b))
            &&& unset_in_grid(rows(final(seen)@)) + 1 == unset_in_grid(rows(old(seen)@))
        },
        !newly_set(rows(m@), rows(old(seen)@), a as int, b as int) ==> {
            &&& final(stack)@ == old(stack)@
            &&& rows(final(seen)@) == rows(old(seen)@)
        },
{
    assert(rows(m@)[a as int].len() == m.len());
    assert(rows(seen@)[a as int].len() == m.len());
    if m[a][b] && !seen[a][b] {
        let ghost g = rows(seen@);
        seen[a][b] = true;
        assert(rows(seen@) =~= g.update(a as int, g[a as int].update(b as int, true)));
        proof {
            lemma_unset_in_grid_update(g, a as int, b as int);
        }
        stack.push((a, b));
    }
}

/// Visits the four neighbours of `(cx, cy)` that lie in the grid.
#[verifier::rlimit(60)]
fn visit_neighbours(
    m: &Vec<Vec<bool>>,
    seen: &mut Vec<Vec<bool>>,
    stack: &mut Vec<(usize, usize)>,
    cx: usize,
    cy: usize,
)
    requires
        is_square(rows(m@)),
        old(seen).len() == m.len(),
        is_square(rows(old(seen)@)),
        cx < m.len(),
        cy < m.len(),
    ensures
        final(seen).len() == m.len(),
        is_square(rows(final(seen)@)),
        forall|i: int, j: int| 0 <= i < m.len() && 0 <= j < m.len() && #[trigger] rows(final(seen)@)[i][j]
            ==> rows(old(seen)@)[i][j] || (adjacent((cx as int, cy as int), (i, j)) && rows(m@)[i][j]),
        forall|i: int, j: int| 0 <= i < m.len() && 0 <= j < m.len() && #[trigger] rows(old(seen)@)[i][j]
            ==> rows(final(seen)@)[i][j],
        closed_at(rows(m@), rows(final(seen)@), cx as int, cy as int),
        tracked_by(rows(old(seen)@), rows(final(seen)@), old(stack)@, final(stack)@),
        unset_in_grid(rows(final(seen)@)) + final(stack)@.len() == unset_in_grid(rows(old(seen)@)) + old(stack)@.len(),
        forall|k: int| old(stack)@.len() <= k < final(stack)@.len() ==> {
            let p = #[trigger] final(stack)@[k];
            p.0 < m.len() && p.1 < m.len() && rows(final(seen)@)[p.0 as int][p.1 as int]
        },
{
    let n = m.len();
    let ghost seen0 = rows(seen@);
    let ghost stack0 = stack@;
    assert(tracked_by(seen0, rows(seen@), stack0, stack@));
    if cx > 0 {
        let ghost mid = rows(seen@);
        let ghost l1 = stack@;
        visit(m, seen, stack, cx - 1, cy);
        proof {
            lemma_tracked_step(seen0, mid, rows(seen@), stack0, l1, stack@, (cx - 1) as usize, cy);
        }
    }
    if cx + 1 < n {
        let ghost mid = rows(seen@);
        let ghost l1 = stack@;
        visit(m, seen, stack, cx + 1, cy);
        proof {
            lemma_tracked_step(seen0, mid, rows(seen@), stack0, l1, stack@, (cx + 1) as usize, cy);
        }
    }
    if cy > 0 {
        let ghost mid = rows(seen@);
        let ghost l1 = stack@;
        visit(m, seen, stack, cx, cy - 1);
        proof {
            lemma_tracked_step(seen0, mid, rows(seen@), stack0, l1, stack@, cx, (cy - 1) as usize);
        }
    }
    if cy + 1 < n {
        let ghost mid = rows(seen@);
        let ghost l1 = stack@;
        visit(m, seen, stack, cx, cy + 1);
        proof {
            lemma_tracked_step(seen0, mid, rows(seen@), stack0, l1, stack@, cx, (cy + 1) as usize);
        }
    }
}

/// The cells that `(x, y)` reaches through set cells of `m`: the connected
/// component of `(x, y)`, empty when `(x, y)` itself is not set.
pub fn component(m: &Vec<Vec<bool>>, x: usize, y: usize) -> (c: Vec<Vec<bool>>)
    requires
        is_square(rows(m@)),
        x < m.len(),
        y < m.len(),
    ensures
        c.len() == m.len(),
        is_square(rows(c@)),
        forall|i: int, j: int| 0 <= i < m.len() && 0 <= j < m.len() ==>
            #[trigger] rows(c@)[i][j] == connected(rows(m@), (x as int, y as int), (i, j)),
{
    let ghost mm = rows(m@);
    let ghost s = (x as int, y as int);
    let n = m.len();
    let mut seen = filled(n, false);
    let mut stack: Vec<(usize, usize)> = Vec::new();
    visit(m, &mut seen, &mut stack, x, y);
    proof {
        if member(mm, s) {
            lemma_connected_start(mm, s);
            assert(stack@[0] == (x, y));
        }
    }
    while stack.len() > 0
        invariant
            n == m.len(),
            mm == rows(m@),
            is_square(mm),
            x < n,
            y < n,
            seen.len() == n,
            is_square(rows(seen@)),
            member(mm, s) ==> rows(seen@)[x as int][y as int],
            forall|i: int, j: int| 0 <= i < n && 0 <= j < n && #[trigger] rows(seen@)[i][j]
                ==> connected(mm, s, (i, j)),
            forall|k: int| 0 <= k < stack.len() ==> {
                let p = #[trigger] stack@[k];
                p.0 < n && p.1 < n && rows(seen@)[p.0 as int][p.1 as int]
            },
            forall|i: int, j: int|
                0 <= i < n && 0 <= j < n && #[trigger] rows(seen@)[i][j]
                    && !stack@.contains((i as usize, j as usize)) ==> closed_at(mm, rows(seen@), i, j),
        decreases unset_in_grid(rows(seen@)), stack.len(),
    {
        let ghost seen0 = rows(seen@);
        let ghost stack0 = stack@;
        let (cx, cy) = stack.pop().unwrap();
        let ghost rest = stack@;
        assert(stack0 == rest.push((cx, cy)));
        assert(stack0[stack0.len() - 1] == (cx, cy));
        let ghost c = (cx as int, cy as int);
        assert(connected(mm, s, c));
        visit_neighbours(m, &mut seen, &mut stack, cx, cy);
        let ghost seen4 = rows(seen@);
        proof {
            assert forall|i: int, j: int| 0 <= i < n && 0 <= j < n && #[trigger] seen4[i][j]
                implies connected(mm, s, (i, j)) by {
                if !seen0[i][j] {
                    lemma_connected_step(mm, s, c, (i, j));
                }
            }
            assert forall|i: int, j: int|
                0 <= i < n && 0 <= j < n && #[trigger] seen4[i][j]
                    && !stack@.contains((i as usize, j as usize)) implies closed_at(mm, seen4, i, j) by {
                if i == cx && j == cy {
                } else if seen0[i][j] {
                    if stack0.contains((i as usize, j as usize)) {
                        let k = choose|k: int| 0 <= k < stack0.len() && stack0[k] == (i as usize, j as usize);
                        assert(k < rest.len());
                        assert(stack@[k] == (i as usize, j as usize));
                    }
                    assert(closed_at(mm, seen0, i, j));
                }
            }
            assert forall|k: int| 0 <= k < stack.len() implies {
                let p = #[trigger] stack@[k];
                p.0 < n && p.1 < n && seen4[p.0 as int][p.1 as int]
            } by {
                if k < rest.len() {
                    assert(stack@[k] == stack0[k]);
                }
            }
        }
    }
    proof {
        assert forall|i: int, j: int| 0 <= i < n && 0 <= j < n implies
            #[trigger] rows(seen@)[i][j] == connected(mm, s, (i, j)) by {
            if connected(mm, s, (i, j)) {
                assert(member(mm, s)) by {
                    let path = choose|path: Seq<(int, int)>| #[trigger] is_path(mm, path) && path[0] == s && path.last() == (i, j);
                    assert(member(mm, path[0]));
                }
                let done = rows(seen@);
                let inside = |p: (int, int)| member(done, p);
                assert forall|p: (int, int), q: (int, int)|
                    #![trigger inside(p), member(mm, q)]
                    inside(p) && adjacent(p, q) && member(mm, q) implies inside(q) by {
                    assert(done[p.0][p.1]);
                    assert(closed_at(mm, done, p.0, p.1));
                }
                lemma_reach_stays(mm, s, (i, j), inside);
            }
        }
    }
    seen
}

/// `g` with the cell `(x, y)` set to `v`.
pub open spec fn set_cell<T>(g: Seq<Seq<T>>, x: int, y: int, v: T) -> Seq<Seq<T>> {
    g.update(x, g[x].update(y, v))
}

/// `g` with every cell that `c` marks set to `v`.
pub open spec fn painted<T>(g: Seq<Seq<T>>, c: Seq<Seq<bool>>, v: T) -> Seq<Seq<T>> {
    Seq::new(g.len(), |i: int| Seq::new(g[i].len(), |j: int| if c[i][j] { v } else { g[i][j] }))
}

/// Sets to `v` every cell that `c` marks.
pub fn paint<T: Copy>(g: &mut Vec<Vec<T>>, c: &Vec<Vec<bool>>, v: T)
    requires
        is_square(rows(old(g)@)),
        c.len() == old(g).len(),
        is_square(rows(c@)),
    ensures
        final(g).len() == old(g).len(),
        rows(final(g)@) == painted(rows(old(g)@), rows(c@), v),
{
    let ghost g0 = rows(g@);
    let ghost cc = rows(c@);
    let n = g.len();
    let mut i: usize = 0;
    while i < n
        invariant
            i <= n,
            n == g.len(),
            g0.len() == n,
            is_square(g0),
            cc == rows(c@),
            cc.len() == n,
            is_square(cc),
            rows(g@).len() == n,
            forall|a: int| 0 <= a < n ==> (#[trigger] rows(g@)[a]).len() == n,
            forall|a: int, b: int| 0 <= a < n && 0 <= b < n ==> #[trigger] rows(g@)[a][b]
                == if a < i && cc[a][b] { v } else { g0[a][b] },
        decreases n - i,
    {
        assert(rows(g@)[i as int].len() == n);
        assert(cc[i as int].len() == n);
        let mut j: usize = 0;
        while j < n
            invariant
                i < n,
                j <= n,
                n == g.len(),
                g0.len() == n,
                is_square(g0),
                cc == rows(c@),
                cc.len() == n,
                is_square(cc),
                rows(g@).len() == n,
                forall|a: int| 0 <= a < n ==> (#[trigger] rows(g@)[a]).len() == n,
                forall|a: int, b: int| 0 <= a < n && 0 <= b < n ==> #[trigger] rows(g@)[a][b]
                    == if (a < i || (a == i && b < j)) && cc[a][b] { v } else { g0[a][b] },
            decreases n - j,
        {
            assert(cc[i as int].len() == n);
            assert(rows(g@)[i as int].len() == n);
            if c[i][j] {
                let ghost before = rows(g@);
                g[i][j] = v;
                assert(rows(g@) =~= set_cell(before, i as int, j as int, v));
            }
            j = j + 1;
        }
        i = i + 1;
    }
    assert forall|a: int| 0 <= a < n implies #[trigger] rows(g@)[a] =~= painted(g0, cc, v)[a] by {
        assert(rows(g@)[a].len() == n);
    }
    assert(rows(g@) =~= painted(g0, cc, v));
}

/// A walk that starts inside a region closed under set neighbours never
/// leaves it.
pub proof fn lemma_walk_stays(
    m: Seq<Seq<bool>>,
    path: Seq<(int, int)>,
    inside: spec_fn((int, int)) -> bool,
    k: int,
)
    requires
        is_path(m, path),
        inside(path[0]),
        forall|p: (int, int), q: (int, int)|
            #![trigger inside(p), member(m, q)]
            inside(p) && adjacent(p, q) && member(m, q) ==> inside(q),
        0 <= k < path.len(),
    ensures
        inside(path[k]),
    decreases k,
{
    if k > 0 {
        lemma_walk_stays(m, path, inside, k - 1);
        assert(adjacent(path[k - 1], path[k]));
        assert(member(m, path[k]));
    }
}

/// What a region closed under set neighbours holds of `s`, it holds of
/// every cell `s` reaches.
pub proof fn lemma_reach_stays(
    m: Seq<Seq<bool>>,
    s: (int, int),
    t: (int, int),
    inside: spec_fn((int, int)) -> bool,
)
    requires
        connected(m, s, t),
        inside(s),
        forall|p: (int, int), q: (int, int)|
            #![trigger inside(p), member(m, q)]
            inside(p) && adjacent(p, q) && member(m, q) ==> inside(q),
    ensures
        inside(t),
{
    let path = choose|path: Seq<(int, int)>| #[trigger] is_path(m, path) && path[0] == s && path.last() == t;
    lemma_walk_stays(m, path, inside, path.len() - 1);
}

} // verus!
