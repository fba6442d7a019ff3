use vstd::prelude::*;
use crate::game::{ColourType, ColourCode, in_bounds, spec_cell_code};

verus! {

broadcast use vstd::seq::group_seq_axioms;

/// 4-connectivity of grid cells.
pub open spec fn adjacent(p: (int, int), q: (int, int)) -> bool {
    ||| p.0 == q.0 && (p.1 == q.1 + 1 || p.1 + 1 == q.1)
    ||| p.1 == q.1 && (p.0 == q.0 + 1 || p.0 + 1 == q.0)
}

/// A walk over on-board cells that all hold the settled colour `cc`,
/// stepping between 4-connected neighbours.
pub open spec fn is_path(
    g: Seq<Seq<ColourType>>,
    w: int,
    h: int,
    cc: ColourCode,
    path: Seq<(int, int)>,
) -> bool {
    &&& forall|i: int| 0 <= i < path.len() ==> in_bounds(w, h, #[trigger] path[i])
        && g[path[i].0][path[i].1] == ColourType::Colour(cc)
    &&& forall|i: int| 0 <= i < path.len() - 1 ==> adjacent(#[trigger] path[i], path[i + 1])
}

/// `p` and `q` lie on one same-colour connected component of colour `cc`.
pub open spec fn connected(
    g: Seq<Seq<ColourType>>,
    w: int,
    h: int,
    cc: ColourCode,
    p: (int, int),
    q: (int, int),
) -> bool {
    exists|path: Seq<(int, int)>| #![auto]
        is_path(g, w, h, cc, path) && path.len() > 0 && path.first() == p && path.last() == q
}

/// Some cell of column `col` lies on `p`'s component.
pub open spec fn reaches_col(
    g: Seq<Seq<ColourType>>,
    w: int,
    h: int,
    cc: ColourCode,
    p: (int, int),
    col: int,
) -> bool {
    exists|q: (int, int)| #![auto] q.0 == col && connected(g, w, h, cc, p, q)
}

pub proof fn lemma_connected_refl(
    g: Seq<Seq<ColourType>>,
    w: int,
    h: int,
    cc: ColourCode,
    p: (int, int),
)
    requires
        in_bounds(w, h, p),
        g[p.0][p.1] == ColourType::Colour(cc),
    ensures
        connected(g, w, h, cc, p, p),
{
    let path = seq![p];
    assert(path.first() == p && path.last() == p);
    assert(is_path(g, w, h, cc, path));
}

pub proof fn lemma_connected_step(
    g: Seq<Seq<ColourType>>,
    w: int,
    h: int,
    cc: ColourCode,
    p: (int, int),
    q: (int, int),
    n: (int, int),
)
    requires
        connected(g, w, h, cc, p, q),
        adjacent(q, n),
        in_bounds(w, h, n),
        g[n.0][n.1] == ColourType::Colour(cc),
    ensures
        connected(g, w, h, cc, p, n),
{
    let path = choose|path: Seq<(int, int)>| #![auto]
        is_path(g, w, h, cc, path) && path.len() > 0 && path.first() == p && path.last() == q;
    let path2 = path.push(n);
    assert forall|i: int| 0 <= i < path2.len() - 1
        implies adjacent(#[trigger] path2[i], path2[i + 1]) by {
        if i < path.len() - 1 {
            assert(path2[i] == path[i] && path2[i + 1] == path[i + 1]);
        } else {
            assert(path2[i] == path.last() && path2[i + 1] == n);
        }
    }
    assert(is_path(g, w, h, cc, path2));
    assert(path2.first() == p && path2.last() == n);
}

pub proof fn lemma_connected_sym(
    g: Seq<Seq<ColourType>>,
    w: int,
    h: int,
    cc: ColourCode,
    p: (int, int),
    q: (int, int),
)
    requires
        connected(g, w, h, cc, p, q),
    ensures
        connected(g, w, h, cc, q, p),
{
    let path = choose|path: Seq<(int, int)>| #![auto]
        is_path(g, w, h, cc, path) && path.len() > 0 && path.first() == p && path.last() == q;
    let n = path.len() as int;
    let rev = Seq::new(path.len(), |i: int| path[n - 1 - i]);
    assert forall|i: int| 0 <= i < rev.len() - 1
        implies adjacent(#[trigger] rev[i], rev[i + 1]) by {
        assert(adjacent(path[n - 2 - i], path[n - 1 - i]));
    }
    assert(is_path(g, w, h, cc, rev));
    assert(rev.first() == q && rev.last() == p);
}

pub proof fn lemma_connected_trans(
    g: Seq<Seq<ColourType>>,
    w: int,
    h: int,
    cc: ColourCode,
    p: (int, int),
    q: (int, int),
    r: (int, int),
)
    requires
        connected(g, w, h, cc, p, q),
        connected(g, w, h, cc, q, r),
    ensures
        connected(g, w, h, cc, p, r),
{
    let p1 = choose|path: Seq<(int, int)>| #![auto]
        is_path(g, w, h, cc, path) && path.len() > 0 && path.first() == p && path.last() == q;
    let p2 = choose|path: Seq<(int, int)>| #![auto]
        is_path(g, w, h, cc, path) && path.len() > 0 && path.first() == q && path.last() == r;
    let comb = p1 + p2.skip(1);
    assert(p2.skip(1).len() == p2.len() - 1);
    assert forall|i: int| 0 <= i < comb.len() implies in_bounds(w, h, #[trigger] comb[i])
        && g[comb[i].0][comb[i].1] == ColourType::Colour(cc) by {
        if i < p1.len() {
            assert(comb[i] == p1[i]);
        } else {
            assert(comb[i] == p2[i - p1.len() + 1]);
        }
    }
    assert forall|i: int| 0 <= i < comb.len() - 1
        implies adjacent(#[trigger] comb[i], comb[i + 1]) by {
        if i < p1.len() - 1 {
            assert(comb[i] == p1[i] && comb[i + 1] == p1[i + 1]);
        } else if i == p1.len() - 1 {
            if p2.len() > 1 {
                assert(comb[i] == p1.last());
                assert(comb[i + 1] == p2[1]);
                assert(adjacent(p2[0], p2[1]));
            }
        } else {
            assert(comb[i] == p2[i - p1.len() + 1] && comb[i + 1] == p2[i - p1.len() + 2]);
        }
    }
    assert(is_path(g, w, h, cc, comb));
    assert(comb.len() > 0 && comb.first() == p);
    if p2.len() == 1 {
        assert(comb =~= p1);
        assert(comb.last() == q);
        assert(q == r);
    } else {
        assert(comb.last() == p2.last());
    }
}

/// A path is preserved when moving to a grid with at least the same cells of
/// colour `cc`.
pub proof fn lemma_connected_mono(
    g: Seq<Seq<ColourType>>,
    g2: Seq<Seq<ColourType>>,
    w: int,
    h: int,
    cc: ColourCode,
    p: (int, int),
    q: (int, int),
)
    requires
        connected(g2, w, h, cc, p, q),
        forall|x: int, y: int| 0 <= x < w && 0 <= y < h
            && #[trigger] g2[x][y] == ColourType::Colour(cc) ==> g[x][y] == ColourType::Colour(cc),
    ensures
        connected(g, w, h, cc, p, q),
{
    let path = choose|path: Seq<(int, int)>| #![auto]
        is_path(g2, w, h, cc, path) && path.len() > 0 && path.first() == p && path.last() == q;
    assert forall|i: int| 0 <= i < path.len() implies in_bounds(w, h, #[trigger] path[i])
        && g[path[i].0][path[i].1] == ColourType::Colour(cc) by {
        assert(g2[path[i].0][path[i].1] == ColourType::Colour(cc));
    }
    assert(is_path(g, w, h, cc, path));
}

/// `p`'s component touches column 0 at some row below `yb`.
pub open spec fn origin_before(
    g: Seq<Seq<ColourType>>,
    w: int,
    h: int,
    cc: ColourCode,
    p: (int, int),
    yb: int,
) -> bool {
    exists|r: int| #![auto] 0 <= r < yb && connected(g, w, h, cc, p, (0, r))
}

/// Every cell of a path is connected to the path's start.
pub proof fn lemma_connected_prefix(
    g: Seq<Seq<ColourType>>,
    w: int,
    h: int,
    cc: ColourCode,
    path: Seq<(int, int)>,
    k: int,
)
    requires
        is_path(g, w, h, cc, path),
        path.len() > 0,
        0 <= k < path.len(),
    ensures
        connected(g, w, h, cc, path[0], path[k]),
{
    let pre = path.take(k + 1);
    assert(is_path(g, w, h, cc, pre)) by {
        assert forall|i: int| 0 <= i < pre.len() implies in_bounds(w, h, #[trigger] pre[i])
            && g[pre[i].0][pre[i].1] == ColourType::Colour(cc) by {
            assert(pre[i] == path[i]);
        }
        assert forall|i: int| 0 <= i < pre.len() - 1
            implies adjacent(#[trigger] pre[i], pre[i + 1]) by {
            assert(pre[i] == path[i] && pre[i + 1] == path[i + 1]);
        }
    }
    assert(pre.first() == path[0] && pre.last() == path[k]);
}

/// Connectivity from `start` carries over to a grid that agrees with `g` on
/// every cell of `start`'s component.
pub proof fn lemma_component_unchanged(
    g: Seq<Seq<ColourType>>,
    g2: Seq<Seq<ColourType>>,
    w: int,
    h: int,
    cc: ColourCode,
    start: (int, int),
    p: (int, int),
)
    requires
        connected(g, w, h, cc, start, p),
        forall|c: (int, int)| in_bounds(w, h, c)
            && #[trigger] connected(g, w, h, cc, start, c) ==> g2[c.0][c.1] == g[c.0][c.1],
    ensures
        connected(g2, w, h, cc, start, p),
{
    let path = choose|path: Seq<(int, int)>| #![auto]
        is_path(g, w, h, cc, path) && path.len() > 0 && path.first() == start
        && path.last() == p;
    assert forall|i: int| 0 <= i < path.len() implies in_bounds(w, h, #[trigger] path[i])
        && g2[path[i].0][path[i].1] == ColourType::Colour(cc) by {
        lemma_connected_prefix(g, w, h, cc, path, i);
        assert(connected(g, w, h, cc, start, path[i]));
    }
    assert(is_path(g2, w, h, cc, path));
}

/// What one connectivity scan does to the grid. Each cell is either left
/// alone, or it was a settled particle on a same-colour component touching
/// both the left and the right edge, and its deletion countdown starts at
/// 40; and every settled particle on such a spanning component is indeed
/// cleared — a scan that does nothing on a spanning board is ruled out.
pub open spec fn scan_rel(
    g: Seq<Seq<ColourType>>,
    g2: Seq<Seq<ColourType>>,
    w: int,
    h: int,
) -> bool {
    &&& forall|x: int, y: int| 0 <= x < w && 0 <= y < h ==> {
        let cc = spec_cell_code(g[x][y]);
        (#[trigger] g2[x][y]) == g[x][y] || {
            &&& g[x][y] == ColourType::Colour(cc)
            &&& g2[x][y] == ColourType::Deleting(cc, 40)
            &&& reaches_col(g, w, h, cc, (x, y), 0)
            &&& reaches_col(g, w, h, cc, (x, y), w - 1)
        }
    }
    &&& forall|x: int, y: int| 0 <= x < w && 0 <= y < h ==> {
        let cc = spec_cell_code(g[x][y]);
        (g[x][y] == ColourType::Colour(cc) && reaches_col(g, w, h, cc, (x, y), 0)
            && reaches_col(g, w, h, cc, (x, y), w - 1))
            ==> (#[trigger] g2[x][y]) == ColourType::Deleting(cc, 40)
    }
}

/// A settled particle whose component does not span to the right edge is
/// never cleared by a connectivity scan — in particular, components that
/// individually fail to reach the last column are left untouched no matter
/// how many of them the board holds.
pub proof fn lemma_unreachable_not_cleared(
    g: Seq<Seq<ColourType>>,
    g2: Seq<Seq<ColourType>>,
    w: int,
    h: int,
    p: (int, int),
    cc: ColourCode,
)
    requires
        scan_rel(g, g2, w, h),
        in_bounds(w, h, p),
        g[p.0][p.1] == ColourType::Colour(cc),
        !reaches_col(g, w, h, cc, p, w - 1),
    ensures
        g2[p.0][p.1] == g[p.0][p.1],
{
    assert(spec_cell_code(g[p.0][p.1]) == cc);
}

} // verus!
