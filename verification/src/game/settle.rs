use vstd::prelude::*;
use crate::game::{ColourType, ColourCode, grid_wf};

verus! {

broadcast use vstd::seq::group_seq_axioms;

/// One countdown step of a cell: a deleting cell ticks down, reaching empty
/// at zero; every other cell is left alone.
pub open spec fn dec_cell(c: ColourType) -> ColourType {
    match c {
        ColourType::Deleting(code, t) => if t > 0 {
            ColourType::Deleting(code, (t - 1) as u32)
        } else {
            ColourType::Empty
        },
        _ => c,
    }
}

/// Row `y` with every deletion countdown in it ticked down once.
pub open spec fn dec_row(g: Seq<Seq<ColourType>>, y: int) -> Seq<Seq<ColourType>> {
    Seq::new(g.len(), |x: int| g[x].update(y, dec_cell(g[x][y])))
}

/// Whether row `y` holds any settled particle.
pub open spec fn row_has_physics(g: Seq<Seq<ColourType>>, w: int, y: int) -> bool {
    exists|x: int| 0 <= x < w && (#[trigger] g[x][y]) is Colour
}

/// The game-over trigger: a settled particle at or above the high-water row
/// (19 logical squares up).
pub open spec fn game_over_row(g: Seq<Seq<ColourType>>, w: int, y: int, s: int) -> bool {
    y >= 19 * s && row_has_physics(g, w, y)
}

/// The game-over wipe of one cell: settled particles at or above 18 logical
/// squares vanish at once; lower ones start a countdown that grows with the
/// board height above them, producing a top-down cascading wipe.
pub open spec fn wipe_cell(c: ColourType, y: int, h: int, s: int) -> ColourType {
    match c {
        ColourType::Colour(code) => if y >= 18 * s {
            ColourType::Empty
        } else {
            ColourType::Deleting(code, (((h - y) as u32) / 10) as u32)
        },
        _ => c,
    }
}

/// The whole board after the game-over wipe.
pub open spec fn wipe(g: Seq<Seq<ColourType>>, w: int, h: int, s: int) -> Seq<Seq<ColourType>> {
    Seq::new(w as nat, |x: int| Seq::new(h as nat, |y: int| wipe_cell(g[x][y], y, h, s)))
}

/// Relocate one cell: the destination takes the source's state, then the
/// source empties, in that order.
pub open spec fn gmove(g: Seq<Seq<ColourType>>, fx: int, fy: int, tx: int, ty: int)
    -> Seq<Seq<ColourType>> {
    let g1 = g.update(tx, g[tx].update(ty, g[fx][fy]));
    g1.update(fx, g1[fx].update(fy, ColourType::Empty))
}

/// The diagonal "roof" step at cell `(x, y)`: a settled particle wedged
/// under an occupied cell, with an occupied diagonal on the preferred side
/// and an empty opposite diagonal below, slides out to that empty diagonal.
/// The preference flag flips before every decision on a settled cell.
pub open spec fn pass1_cell(g: Seq<Seq<ColourType>>, w: int, x: int, y: int, tog: bool)
    -> (Seq<Seq<ColourType>>, bool) {
    if g[x][y] is Colour {
        let t2 = !tog;
        if t2 {
            if x > 0 && x < w - 1 && g[x + 1][y - 1] is Colour && g[x][y + 1] is Colour
                && g[x - 1][y - 1] is Empty {
                (gmove(g, x, y, x - 1, y - 1), t2)
            } else if x > 0 && x < w - 1 && g[x - 1][y - 1] is Colour && g[x][y + 1] is Colour
                && g[x + 1][y - 1] is Empty {
                (gmove(g, x, y, x + 1, y - 1), t2)
            } else {
                (g, t2)
            }
        } else {
            if x > 0 && x < w - 1 && g[x - 1][y - 1] is Colour && g[x][y + 1] is Colour
                && g[x + 1][y - 1] is Empty {
                (gmove(g, x, y, x + 1, y - 1), t2)
            } else if x > 0 && x < w - 1 && g[x + 1][y - 1] is Colour && g[x][y + 1] is Colour
                && g[x - 1][y - 1] is Empty {
                (gmove(g, x, y, x - 1, y - 1), t2)
            } else {
                (g, t2)
            }
        }
    } else {
        (g, tog)
    }
}

/// The roof pass over the first `n` cells of row `y`, left to right, each
/// step seeing the moves of the steps before it.
pub open spec fn pass1_upto(g: Seq<Seq<ColourType>>, w: int, y: int, tog: bool, n: nat)
    -> (Seq<Seq<ColourType>>, bool)
    decreases n,
{
    if n == 0 {
        (g, tog)
    } else {
        let prev = pass1_upto(g, w, y, tog, (n - 1) as nat);
        pass1_cell(prev.0, w, (n - 1) as int, y, prev.1)
    }
}

/// The straight-down step: a settled particle over an empty cell falls one
/// row.
pub open spec fn pass2_cell(g: Seq<Seq<ColourType>>, x: int, y: int) -> Seq<Seq<ColourType>> {
    if g[x][y] is Colour && g[x][y - 1] is Empty {
        gmove(g, x, y, x, y - 1)
    } else {
        g
    }
}

pub open spec fn pass2_upto(g: Seq<Seq<ColourType>>, y: int, n: nat) -> Seq<Seq<ColourType>>
    decreases n,
{
    if n == 0 {
        g
    } else {
        pass2_cell(pass2_upto(g, y, (n - 1) as nat), (n - 1) as int, y)
    }
}

/// The diagonal-down step: a remaining settled particle slides to an empty
/// diagonal below, trying the preferred side first. The preference flag
/// flips before every decision on a settled cell.
pub open spec fn pass3_cell(g: Seq<Seq<ColourType>>, w: int, x: int, y: int, tog: bool)
    -> (Seq<Seq<ColourType>>, bool) {
    if g[x][y] is Colour {
        let t2 = !tog;
        if t2 {
            if x > 0 && g[x - 1][y - 1] is Empty {
                (gmove(g, x, y, x - 1, y - 1), t2)
            } else if x < w - 1 && g[x + 1][y - 1] is Empty {
                (gmove(g, x, y, x + 1, y - 1), t2)
            } else {
                (g, t2)
            }
        } else {
            if x < w - 1 && g[x + 1][y - 1] is Empty {
                (gmove(g, x, y, x + 1, y - 1), t2)
            } else if x > 0 && g[x - 1][y - 1] is Empty {
                (gmove(g, x, y, x - 1, y - 1), t2)
            } else {
                (g, t2)
            }
        }
    } else {
        (g, tog)
    }
}

pub open spec fn pass3_upto(g: Seq<Seq<ColourType>>, w: int, y: int, tog: bool, n: nat)
    -> (Seq<Seq<ColourType>>, bool)
    decreases n,
{
    if n == 0 {
        (g, tog)
    } else {
        let prev = pass3_upto(g, w, y, tog, (n - 1) as nat);
        pass3_cell(prev.0, w, (n - 1) as int, y, prev.1)
    }
}

/// One row of the settling sweep: tick the countdowns, then — unless the
/// game-over wipe fires or this is the floor row — run the roof pass (not on
/// the top row), the straight-down pass and the diagonal-down pass. The
/// third component reports whether the wipe fired.
pub open spec fn row_step(g: Seq<Seq<ColourType>>, w: int, h: int, s: int, y: int, tog: bool)
    -> (Seq<Seq<ColourType>>, bool, bool) {
    let gd = dec_row(g, y);
    if game_over_row(g, w, y, s) {
        (wipe(gd, w, h, s), tog, true)
    } else if y == 0 {
        (gd, tog, false)
    } else {
        let p1 = if y < h - 1 { pass1_upto(gd, w, y, tog, w as nat) } else { (gd, tog) };
        let g2 = pass2_upto(p1.0, y, w as nat);
        let p3 = pass3_upto(g2, w, y, p1.1, w as nat);
        (p3.0, p3.1, false)
    }
}

/// The settling sweep over the first `n` rows, bottom to top; once the
/// game-over wipe fires the remaining rows are skipped.
pub open spec fn sweep_upto(g: Seq<Seq<ColourType>>, w: int, h: int, s: int, tog: bool, n: nat)
    -> (Seq<Seq<ColourType>>, bool, bool)
    decreases n,
{
    if n == 0 {
        (g, tog, false)
    } else {
        let prev = sweep_upto(g, w, h, s, tog, (n - 1) as nat);
        if prev.2 {
            prev
        } else {
            row_step(prev.0, w, h, s, (n - 1) as int, prev.1)
        }
    }
}

/// One full settling sweep of the automaton, starting with the preference
/// flag cleared.
pub open spec fn physics_spec(g: Seq<Seq<ColourType>>, w: int, h: int, s: int)
    -> Seq<Seq<ColourType>> {
    sweep_upto(g, w, h, s, false, h as nat).0
}

/// A well-shaped grid stays well-shaped, and falling-piece cells stay
/// exactly as they are, across a grid transformation.
pub open spec fn keeps_shape_and_piece(
    g: Seq<Seq<ColourType>>,
    r: Seq<Seq<ColourType>>,
    w: int,
    h: int,
) -> bool {
    &&& r.len() == g.len()
    &&& forall|x: int| 0 <= x < w ==> (#[trigger] r[x]).len() == g[x].len()
    &&& forall|x: int, y: int| 0 <= x < w && 0 <= y < h
        && (#[trigger] g[x][y]) is NoPhysicsColour ==> r[x][y] == g[x][y]
}

pub proof fn lemma_keeps_trans(
    g: Seq<Seq<ColourType>>,
    m: Seq<Seq<ColourType>>,
    r: Seq<Seq<ColourType>>,
    w: int,
    h: int,
)
    requires
        keeps_shape_and_piece(g, m, w, h),
        keeps_shape_and_piece(m, r, w, h),
    ensures
        keeps_shape_and_piece(g, r, w, h),
{
    assert forall|x: int, y: int| 0 <= x < w && 0 <= y < h
        && (#[trigger] g[x][y]) is NoPhysicsColour implies r[x][y] == g[x][y] by {
        assert(m[x][y] == g[x][y]);
    }
}

proof fn lemma_gmove_keeps(
    g: Seq<Seq<ColourType>>,
    w: int,
    h: int,
    fx: int,
    fy: int,
    tx: int,
    ty: int,
)
    requires
        0 <= fx < w,
        0 <= fy < h,
        0 <= tx < w,
        0 <= ty < h,
        g[fx][fy] is Colour,
        g[tx][ty] is Empty,
        grid_wf(g, w, h),
    ensures
        keeps_shape_and_piece(g, gmove(g, fx, fy, tx, ty), w, h),
{
    let r = gmove(g, fx, fy, tx, ty);
    let g1 = g.update(tx, g[tx].update(ty, g[fx][fy]));
    assert(r == g1.update(fx, g1[fx].update(fy, ColourType::Empty)));
    assert forall|x: int| 0 <= x < w implies (#[trigger] r[x]).len() == g[x].len() by {
        assert(g1[x].len() == g[x].len());
    }
    assert forall|x: int, y: int| 0 <= x < w && 0 <= y < h
        && (#[trigger] g[x][y]) is NoPhysicsColour implies r[x][y] == g[x][y] by {
        assert(!(x == fx && y == fy));
        assert(!(x == tx && y == ty));
        assert(g1[x][y] == g[x][y]);
        assert(r[x][y] == g1[x][y]);
    }
}

proof fn lemma_pass1_keeps(g: Seq<Seq<ColourType>>, w: int, h: int, y: int, tog: bool, n: nat)
    requires
        grid_wf(g, w, h),
        1 <= y < h - 1,
        n <= w,
    ensures
        keeps_shape_and_piece(g, pass1_upto(g, w, y, tog, n).0, w, h),
    decreases n,
{
    if n > 0 {
        lemma_pass1_keeps(g, w, h, y, tog, (n - 1) as nat);
        let prev = pass1_upto(g, w, y, tog, (n - 1) as nat);
        assert forall|x: int| 0 <= x < w implies (#[trigger] prev.0[x]).len() == h by {
            assert(prev.0[x].len() == g[x].len());
        }
        assert(grid_wf(prev.0, w, h));
        let x = (n - 1) as int;
        let cur = pass1_cell(prev.0, w, x, y, prev.1);
        if cur.0 != prev.0 {
            if prev.0[x][y + 1] is Colour && prev.0[x - 1][y - 1] is Empty
                && cur.0 == gmove(prev.0, x, y, x - 1, y - 1) {
                lemma_gmove_keeps(prev.0, w, h, x, y, x - 1, y - 1);
            } else {
                lemma_gmove_keeps(prev.0, w, h, x, y, x + 1, y - 1);
            }
            lemma_keeps_trans(g, prev.0, cur.0, w, h);
        }
    }
}

proof fn lemma_pass2_keeps(g: Seq<Seq<ColourType>>, w: int, h: int, y: int, n: nat)
    requires
        grid_wf(g, w, h),
        1 <= y < h,
        n <= w,
    ensures
        keeps_shape_and_piece(g, pass2_upto(g, y, n), w, h),
    decreases n,
{
    if n > 0 {
        lemma_pass2_keeps(g, w, h, y, (n - 1) as nat);
        let prev = pass2_upto(g, y, (n - 1) as nat);
        assert forall|x: int| 0 <= x < w implies (#[trigger] prev[x]).len() == h by {
            assert(prev[x].len() == g[x].len());
        }
        assert(grid_wf(prev, w, h));
        let x = (n - 1) as int;
        let cur = pass2_cell(prev, x, y);
        if cur != prev {
            lemma_gmove_keeps(prev, w, h, x, y, x, y - 1);
            lemma_keeps_trans(g, prev, cur, w, h);
        }
    }
}

proof fn lemma_pass3_keeps(g: Seq<Seq<ColourType>>, w: int, h: int, y: int, tog: bool, n: nat)
    requires
        grid_wf(g, w, h),
        1 <= y < h,
        n <= w,
    ensures
        keeps_shape_and_piece(g, pass3_upto(g, w, y, tog, n).0, w, h),
    decreases n,
{
    if n > 0 {
        lemma_pass3_keeps(g, w, h, y, tog, (n - 1) as nat);
        let prev = pass3_upto(g, w, y, tog, (n - 1) as nat);
        assert forall|x: int| 0 <= x < w implies (#[trigger] prev.0[x]).len() == h by {
            assert(prev.0[x].len() == g[x].len());
        }
        assert(grid_wf(prev.0, w, h));
        let x = (n - 1) as int;
        let cur = pass3_cell(prev.0, w, x, y, prev.1);
        if cur.0 != prev.0 {
            if x > 0 && prev.0[x - 1][y - 1] is Empty
                && cur.0 == gmove(prev.0, x, y, x - 1, y - 1) {
                lemma_gmove_keeps(prev.0, w, h, x, y, x - 1, y - 1);
            } else {
                lemma_gmove_keeps(prev.0, w, h, x, y, x + 1, y - 1);
            }
            lemma_keeps_trans(g, prev.0, cur.0, w, h);
        }
    }
}

proof fn lemma_dec_row_keeps(g: Seq<Seq<ColourType>>, w: int, h: int, y: int)
    requires
        grid_wf(g, w, h),
        0 <= y < h,
    ensures
        keeps_shape_and_piece(g, dec_row(g, y), w, h),
{
}

proof fn lemma_wipe_keeps(g: Seq<Seq<ColourType>>, w: int, h: int, s: int)
    requires
        grid_wf(g, w, h),
    ensures
        keeps_shape_and_piece(g, wipe(g, w, h, s), w, h),
{
}

proof fn lemma_row_step_keeps(
    g: Seq<Seq<ColourType>>,
    w: int,
    h: int,
    s: int,
    y: int,
    tog: bool,
)
    requires
        grid_wf(g, w, h),
        0 <= y < h,
    ensures
        keeps_shape_and_piece(g, row_step(g, w, h, s, y, tog).0, w, h),
{
    let gd = dec_row(g, y);
    lemma_dec_row_keeps(g, w, h, y);
    assert forall|x: int| 0 <= x < w implies (#[trigger] gd[x]).len() == h by {
        assert(gd[x].len() == g[x].len());
    }
    assert(grid_wf(gd, w, h));
    if game_over_row(g, w, y, s) {
        lemma_wipe_keeps(gd, w, h, s);
        lemma_keeps_trans(g, gd, wipe(gd, w, h, s), w, h);
    } else if y == 0 {
    } else {
        let p1 = if y < h - 1 { pass1_upto(gd, w, y, tog, w as nat) } else { (gd, tog) };
        if y < h - 1 {
            lemma_pass1_keeps(gd, w, h, y, tog, w as nat);
        }
        lemma_keeps_trans(g, gd, p1.0, w, h);
        assert forall|x: int| 0 <= x < w implies (#[trigger] p1.0[x]).len() == h by {
            assert(p1.0[x].len() == gd[x].len());
        }
        assert(grid_wf(p1.0, w, h));
        let g2 = pass2_upto(p1.0, y, w as nat);
        lemma_pass2_keeps(p1.0, w, h, y, w as nat);
        lemma_keeps_trans(g, p1.0, g2, w, h);
        assert forall|x: int| 0 <= x < w implies (#[trigger] g2[x]).len() == h by {
            assert(g2[x].len() == p1.0[x].len());
        }
        assert(grid_wf(g2, w, h));
        let p3 = pass3_upto(g2, w, y, p1.1, w as nat);
        lemma_pass3_keeps(g2, w, h, y, p1.1, w as nat);
        lemma_keeps_trans(g, g2, p3.0, w, h);
    }
}

/// A settling sweep leaves the grid's shape and every falling-piece cell
/// untouched: the automaton only moves settled particles into empty cells,
/// ticks countdowns, and wipes settled particles.
pub proof fn lemma_sweep_keeps(
    g: Seq<Seq<ColourType>>,
    w: int,
    h: int,
    s: int,
    tog: bool,
    n: nat,
)
    requires
        grid_wf(g, w, h),
        n <= h,
    ensures
        keeps_shape_and_piece(g, sweep_upto(g, w, h, s, tog, n).0, w, h),
    decreases n,
{
    if n > 0 {
        lemma_sweep_keeps(g, w, h, s, tog, (n - 1) as nat);
        let prev = sweep_upto(g, w, h, s, tog, (n - 1) as nat);
        if !prev.2 {
            assert forall|x: int| 0 <= x < w implies (#[trigger] prev.0[x]).len() == h by {
                assert(prev.0[x].len() == g[x].len());
            }
            assert(grid_wf(prev.0, w, h));
            lemma_row_step_keeps(prev.0, w, h, s, (n - 1) as int, prev.1);
            lemma_keeps_trans(g, prev.0, row_step(prev.0, w, h, s, (n - 1) as int, prev.1).0,
                w, h);
        }
    }
}

/// Once the game-over wipe has fired, the rest of the sweep does nothing.
pub proof fn lemma_sweep_absorb(
    g: Seq<Seq<ColourType>>,
    w: int,
    h: int,
    s: int,
    tog: bool,
    n: nat,
    m: nat,
)
    requires
        n <= m,
        sweep_upto(g, w, h, s, tog, n).2,
    ensures
        sweep_upto(g, w, h, s, tog, m) == sweep_upto(g, w, h, s, tog, n),
    decreases m,
{
    if m > n {
        lemma_sweep_absorb(g, w, h, s, tog, n, (m - 1) as nat);
    }
}

/// The board holds exactly one settled particle, at `(x, y)`, and nothing
/// else at all.
pub open spec fn lone_cell_board(
    g: Seq<Seq<ColourType>>,
    w: int,
    h: int,
    x: int,
    y: int,
    cc: ColourCode,
) -> bool {
    &&& grid_wf(g, w, h)
    &&& forall|a: int, b: int| 0 <= a < w && 0 <= b < h
        ==> (#[trigger] g[a][b]) == if a == x && b == y {
            ColourType::Colour(cc)
        } else {
            ColourType::Empty
        }
}

/// The automaton applied `n` times.
pub open spec fn iter_physics(g: Seq<Seq<ColourType>>, w: int, h: int, s: int, n: nat)
    -> Seq<Seq<ColourType>>
    decreases n,
{
    if n == 0 {
        g
    } else {
        physics_spec(iter_physics(g, w, h, s, (n - 1) as nat), w, h, s)
    }
}

proof fn lemma_pass1_id(g: Seq<Seq<ColourType>>, w: int, h: int, y: int, tog: bool, n: nat)
    requires
        forall|a: int| 0 <= a < w ==> !((#[trigger] g[a][y]) is Colour),
        n <= w,
    ensures
        pass1_upto(g, w, y, tog, n) == (g, tog),
    decreases n,
{
    if n > 0 {
        lemma_pass1_id(g, w, h, y, tog, (n - 1) as nat);
    }
}

proof fn lemma_pass2_id(g: Seq<Seq<ColourType>>, w: int, h: int, y: int, n: nat)
    requires
        forall|a: int| 0 <= a < w ==> !((#[trigger] g[a][y]) is Colour),
        n <= w,
    ensures
        pass2_upto(g, y, n) == g,
    decreases n,
{
    if n > 0 {
        lemma_pass2_id(g, w, h, y, (n - 1) as nat);
    }
}

proof fn lemma_pass3_id(g: Seq<Seq<ColourType>>, w: int, h: int, y: int, tog: bool, n: nat)
    requires
        forall|a: int| 0 <= a < w ==> !((#[trigger] g[a][y]) is Colour),
        n <= w,
    ensures
        pass3_upto(g, w, y, tog, n) == (g, tog),
    decreases n,
{
    if n > 0 {
        lemma_pass3_id(g, w, h, y, tog, (n - 1) as nat);
    }
}

proof fn lemma_dec_row_id(g: Seq<Seq<ColourType>>, w: int, h: int, y: int)
    requires
        grid_wf(g, w, h),
        0 <= y < h,
        forall|a: int| 0 <= a < w ==> !((#[trigger] g[a][y]) is Deleting),
    ensures
        dec_row(g, y) == g,
{
    assert forall|a: int| 0 <= a < g.len() implies #[trigger] dec_row(g, y)[a] == g[a] by {
        assert(dec_cell(g[a][y]) == g[a][y]);
        assert(g[a].update(y, g[a][y]) =~= g[a]);
    }
    assert(dec_row(g, y) =~= g);
}

/// A row with no settled particle and no running countdown is left entirely
/// alone by its row step.
proof fn lemma_row_step_empty(
    g: Seq<Seq<ColourType>>,
    w: int,
    h: int,
    s: int,
    y: int,
    tog: bool,
)
    requires
        grid_wf(g, w, h),
        0 <= y < h,
        forall|a: int| 0 <= a < w ==> !((#[trigger] g[a][y]) is Colour),
        forall|a: int| 0 <= a < w ==> !((#[trigger] g[a][y]) is Deleting),
    ensures
        row_step(g, w, h, s, y, tog) == (g, tog, false),
{
    lemma_dec_row_id(g, w, h, y);
    assert(!row_has_physics(g, w, y));
    if y != 0 {
        if y < h - 1 {
            lemma_pass1_id(g, w, h, y, tog, w as nat);
        }
        lemma_pass2_id(g, w, h, y, w as nat);
        lemma_pass3_id(g, w, h, y, tog, w as nat);
    }
}

proof fn lemma_pass1_no_roof(
    g: Seq<Seq<ColourType>>,
    w: int,
    h: int,
    y: int,
    tog: bool,
    n: nat,
)
    requires
        forall|a: int| 0 <= a < w ==> !((#[trigger] g[a][y + 1]) is Colour),
        n <= w,
    ensures
        pass1_upto(g, w, y, tog, n).0 == g,
    decreases n,
{
    if n > 0 {
        lemma_pass1_no_roof(g, w, h, y, tog, (n - 1) as nat);
        let prev = pass1_upto(g, w, y, tog, (n - 1) as nat);
        let x = (n - 1) as int;
        if 0 < x && x < w - 1 {
            assert(!(g[x][y + 1] is Colour));
        }
    }
}

proof fn lemma_pass2_lone(
    g: Seq<Seq<ColourType>>,
    w: int,
    h: int,
    y: int,
    x: int,
    cc: ColourCode,
    n: nat,
)
    requires
        grid_wf(g, w, h),
        1 <= y < h,
        0 <= x < w,
        g[x][y] == ColourType::Colour(cc),
        g[x][y - 1] is Empty,
        forall|a: int| 0 <= a < w && a != x ==> !((#[trigger] g[a][y]) is Colour),
        n <= w,
    ensures
        pass2_upto(g, y, n) == if n > x {
            gmove(g, x, y, x, y - 1)
        } else {
            g
        },
    decreases n,
{
    if n > 0 {
        lemma_pass2_lone(g, w, h, y, x, cc, (n - 1) as nat);
        let prev = pass2_upto(g, y, (n - 1) as nat);
        let a = (n - 1) as int;
        let moved = gmove(g, x, y, x, y - 1);
        if a < x {
            assert(!(g[a][y] is Colour));
        } else if a == x {
            assert(pass2_cell(g, x, y) == moved);
        } else {
            assert(prev == moved);
            assert(moved[a] == g[a]);
            assert(!(moved[a][y] is Colour));
        }
    }
}

/// The row step of a row holding exactly one settled particle with empty
/// space below it (and no roof above) drops that particle straight down.
proof fn lemma_row_step_lone(
    g: Seq<Seq<ColourType>>,
    w: int,
    h: int,
    s: int,
    y: int,
    x: int,
    cc: ColourCode,
    tog: bool,
)
    requires
        grid_wf(g, w, h),
        1 <= y < h,
        y < 19 * s,
        0 <= x < w,
        g[x][y] == ColourType::Colour(cc),
        g[x][y - 1] is Empty,
        forall|a: int| 0 <= a < w && a != x ==> !((#[trigger] g[a][y]) is Colour),
        forall|a: int| 0 <= a < w ==> !((#[trigger] g[a][y]) is Deleting),
        y < h - 1 ==> forall|a: int| 0 <= a < w ==> !((#[trigger] g[a][y + 1]) is Colour),
    ensures
        ({
            let r = row_step(g, w, h, s, y, tog);
            r.0 == gmove(g, x, y, x, y - 1) && r.2 == false
        }),
{
    lemma_dec_row_id(g, w, h, y);
    assert(!game_over_row(g, w, y, s));
    let p1 = if y < h - 1 { pass1_upto(g, w, y, tog, w as nat) } else { (g, tog) };
    if y < h - 1 {
        lemma_pass1_no_roof(g, w, h, y, tog, w as nat);
    }
    assert(p1.0 == g);
    lemma_pass2_lone(g, w, h, y, x, cc, w as nat);
    let moved = gmove(g, x, y, x, y - 1);
    assert(pass2_upto(g, y, w as nat) == moved);
    assert forall|a: int| 0 <= a < w implies !((#[trigger] moved[a][y]) is Colour) by {
        if a != x {
            assert(moved[a] == g[a]);
        } else {
            assert(moved[x][y] == ColourType::Empty);
        }
    }
    lemma_pass3_id(moved, w, h, y, p1.1, w as nat);
}

proof fn lemma_lone_sweep_upto(
    g: Seq<Seq<ColourType>>,
    w: int,
    h: int,
    s: int,
    x: int,
    y: int,
    cc: ColourCode,
    n: nat,
)
    requires
        lone_cell_board(g, w, h, x, y, cc),
        1 <= y < h,
        y < 19 * s,
        0 <= x < w,
        n <= h,
    ensures
        ({
            let st = sweep_upto(g, w, h, s, false, n);
            !st.2 && st.0 == if n <= y {
                g
            } else {
                gmove(g, x, y, x, y - 1)
            }
        }),
    decreases n,
{
    if n > 0 {
        lemma_lone_sweep_upto(g, w, h, s, x, y, cc, (n - 1) as nat);
        let prev = sweep_upto(g, w, h, s, false, (n - 1) as nat);
        let r = (n - 1) as int;
        let moved = gmove(g, x, y, x, y - 1);
        if r < y {
            assert(prev.0 == g);
            lemma_row_step_empty(g, w, h, s, r, prev.1);
        } else if r == y {
            assert(prev.0 == g);
            if y < h - 1 {
                assert forall|a: int| 0 <= a < w
                    implies !((#[trigger] g[a][y + 1]) is Colour) by {
                    assert(g[a][y + 1] == ColourType::Empty);
                }
            }
            lemma_row_step_lone(g, w, h, s, y, x, cc, prev.1);
        } else {
            assert(prev.0 == moved);
            let g1 = g.update(x, g[x].update(y - 1, g[x][y]));
            assert forall|a: int| 0 <= a < w implies (#[trigger] moved[a]).len() == h by {
                assert(g1[a].len() == g[a].len());
            }
            assert(grid_wf(moved, w, h));
            assert forall|a: int| 0 <= a < w
                implies !((#[trigger] moved[a][r]) is Colour)
                    && !((#[trigger] moved[a][r]) is Deleting) by {
                assert(moved[a][r] == g[a][r]);
            }
            lemma_row_step_empty(moved, w, h, s, r, prev.1);
        }
    }
}

/// One settling sweep drops a lone settled particle with empty space below
/// it by exactly one row, and moves nothing else.
pub proof fn lemma_lone_cell_falls(
    g: Seq<Seq<ColourType>>,
    w: int,
    h: int,
    s: int,
    x: int,
    y: int,
    cc: ColourCode,
)
    requires
        lone_cell_board(g, w, h, x, y, cc),
        1 <= y < h,
        y < 19 * s,
        0 <= x < w,
    ensures
        lone_cell_board(physics_spec(g, w, h, s), w, h, x, y - 1, cc),
{
    lemma_lone_sweep_upto(g, w, h, s, x, y, cc, h as nat);
    let moved = gmove(g, x, y, x, y - 1);
    assert(physics_spec(g, w, h, s) == moved);
    let g1 = g.update(x, g[x].update(y - 1, g[x][y]));
    assert forall|a: int| 0 <= a < w implies (#[trigger] moved[a]).len() == h by {
        assert(g1[a].len() == g[a].len());
    }
    assert forall|a: int, b: int| 0 <= a < w && 0 <= b < h
        implies (#[trigger] moved[a][b]) == if a == x && b == y - 1 {
            ColourType::Colour(cc)
        } else {
            ColourType::Empty
        } by {
        if a == x {
            assert(moved[x][b] == g1[x].update(y, ColourType::Empty)[b]);
        } else {
            assert(moved[a][b] == g[a][b]);
        }
    }
}

proof fn lemma_iter_shift(g: Seq<Seq<ColourType>>, w: int, h: int, s: int, n: nat)
    requires
        n >= 1,
    ensures
        iter_physics(g, w, h, s, n) == iter_physics(physics_spec(g, w, h, s), w, h, s,
            (n - 1) as nat),
    decreases n,
{
    let pg = physics_spec(g, w, h, s);
    if n == 1 {
        assert(iter_physics(g, w, h, s, 1) == physics_spec(iter_physics(g, w, h, s, 0), w, h, s));
        assert(iter_physics(g, w, h, s, 0) == g);
        assert(iter_physics(pg, w, h, s, 0) == pg);
    } else {
        lemma_iter_shift(g, w, h, s, (n - 1) as nat);
        assert(iter_physics(g, w, h, s, n)
            == physics_spec(iter_physics(g, w, h, s, (n - 1) as nat), w, h, s));
        assert(iter_physics(pg, w, h, s, (n - 1) as nat)
            == physics_spec(iter_physics(pg, w, h, s, (n - 2) as nat), w, h, s));
    }
}

/// Settling reaches the floor: a lone settled particle `y` rows up, with
/// nothing else on the board, sits on the floor row after `y` sweeps.
pub proof fn lemma_lone_cell_reaches_floor(
    g: Seq<Seq<ColourType>>,
    w: int,
    h: int,
    s: int,
    x: int,
    y: int,
    cc: ColourCode,
)
    requires
        lone_cell_board(g, w, h, x, y, cc),
        0 <= y < h,
        y < 19 * s,
        0 <= x < w,
    ensures
        lone_cell_board(iter_physics(g, w, h, s, y as nat), w, h, x, 0, cc),
    decreases y,
{
    if y == 0 {
    } else {
        lemma_lone_cell_falls(g, w, h, s, x, y, cc);
        let g1 = physics_spec(g, w, h, s);
        lemma_lone_cell_reaches_floor(g1, w, h, s, x, y - 1, cc);
        lemma_iter_shift(g, w, h, s, y as nat);
    }
}

} // verus!
