pub mod tetromino;
pub mod conn;
pub mod settle;

use vstd::prelude::*;
use crate::game::tetromino::{
    Tetromino, TetrominoShape, piece_pixels, pixels_of_cells, cell_pixels, spec_mask,
    pix_view, lemma_piece_pixels_bounds,
};
use crate::game::conn::{
    adjacent, is_path, connected, reaches_col, origin_before, scan_rel,
    lemma_connected_refl, lemma_connected_step, lemma_connected_sym, lemma_connected_trans,
    lemma_connected_mono, lemma_component_unchanged,
};
use crate::game::settle::{
    dec_cell, dec_row, row_has_physics, game_over_row, wipe_cell, wipe, gmove, pass1_cell,
    pass1_upto, pass2_cell, pass2_upto, pass3_cell, pass3_upto, row_step, sweep_upto,
    physics_spec, keeps_shape_and_piece, lemma_sweep_keeps, lemma_sweep_absorb,
};

verus! {

broadcast use vstd::seq::group_seq_axioms, vstd::set::group_set_axioms;

/// An alternating left/right preference flag; it flips before every decision
/// it is asked for, scattering settling moves to avoid directional drift.
pub struct Toggle {
    toggle: bool,
}

impl Toggle {
    /// The current value of the flag.
    pub closed spec fn view(self) -> bool {
        self.toggle
    }

    pub fn new() -> (r: Self)
        ensures
            r.view() == false,
    {
        Toggle { toggle: false }
    }

    pub fn toggle(&mut self) -> (r: bool)
        ensures
            final(self).view() == !old(self).view(),
            r == final(self).view(),
    {
        self.toggle = !self.toggle;
        self.toggle
    }
}

/// A display colour, one channel per field.
#[derive(Copy, Clone, PartialEq, Eq, Structural, Debug)]
pub struct Rgb {
    pub r: u8,
    pub g: u8,
    pub b: u8,
}

/// The palette of piece colours.
#[derive(Copy, Clone, Eq, PartialEq, Structural, Debug)]
pub enum ColourCode {
    Red,
    Green,
    Blue,
    Violet,
}

/// The fixed display colour of a palette entry.
pub open spec fn spec_code_rgb(code: ColourCode) -> Rgb {
    match code {
        ColourCode::Blue => Rgb { r: 0, g: 0, b: 255 },
        ColourCode::Red => Rgb { r: 255, g: 0, b: 0 },
        ColourCode::Green => Rgb { r: 0, g: 255, b: 0 },
        ColourCode::Violet => Rgb { r: 195, g: 0, b: 255 },
    }
}

impl ColourCode {
    pub fn to_rgb(&self) -> (r: Rgb)
        ensures
            r == spec_code_rgb(*self),
    {
        match self {
            ColourCode::Blue => Rgb { r: 0, g: 0, b: 255 },
            ColourCode::Red => Rgb { r: 255, g: 0, b: 0 },
            ColourCode::Green => Rgb { r: 0, g: 255, b: 0 },
            ColourCode::Violet => Rgb { r: 195, g: 0, b: 255 },
        }
    }
}

/// The state of one board cell: empty, a settled particle subject to physics,
/// a particle of the currently falling piece (exempt from physics), or a cell
/// counting down to removal after a successful connectivity match.
#[derive(Copy, Clone, PartialEq, Eq, Structural, Debug)]
pub enum ColourType {
    Empty,
    Colour(ColourCode),
    NoPhysicsColour(ColourCode),
    Deleting(ColourCode, u32),
}

/// The display colour of a cell: the background when empty, the palette
/// colour otherwise, alternating with the background while a deletion
/// countdown is running (ten ticks per blink phase).
pub open spec fn spec_cell_rgb(c: ColourType, background: Rgb) -> Rgb {
    match c {
        ColourType::Empty => background,
        ColourType::Colour(code) => spec_code_rgb(code),
        ColourType::NoPhysicsColour(code) => spec_code_rgb(code),
        ColourType::Deleting(code, time_left) => if (time_left / 10) % 2 == 1 {
            background
        } else {
            spec_code_rgb(code)
        },
    }
}

impl ColourType {
    pub fn to_rgb(&self, background: Rgb) -> (r: Rgb)
        ensures
            r == spec_cell_rgb(*self, background),
    {
        match self {
            ColourType::Empty => background,
            ColourType::Colour(code) | ColourType::NoPhysicsColour(code) => code.to_rgb(),
            ColourType::Deleting(code, time_left) => {
                if (time_left / 10) % 2 == 1 {
                    background
                } else {
                    code.to_rgb()
                }
            },
        }
    }

    pub fn is_empty(&self) -> (r: bool)
        ensures
            r == (*self is Empty),
    {
        match self {
            ColourType::Empty => true,
            _ => false,
        }
    }

    pub fn is_physics(&self) -> (r: bool)
        ensures
            r == (*self is Colour),
    {
        match self {
            ColourType::Colour(_) => true,
            _ => false,
        }
    }

    /// The same colour, subjected to physics: a falling-piece cell locks into
    /// a settled particle of the same colour. Defined only on coloured,
    /// non-deleting cells; the value itself is left unchanged.
    pub fn with_physics(&mut self) -> (r: ColourType)
        requires
            *old(self) is Colour || *old(self) is NoPhysicsColour,
        ensures
            *final(self) == *old(self),
            *old(self) is Colour ==> r == ColourType::Colour(old(self)->Colour_0),
            *old(self) is NoPhysicsColour ==> r == ColourType::Colour(old(self)->NoPhysicsColour_0),
    {
        let c = *self;
        match c {
            ColourType::NoPhysicsColour(code) | ColourType::Colour(code) => {
                ColourType::Colour(code)
            },
            _ => unreached(),
        }
    }

    /// Start (or restart) the deletion countdown, keeping the cell's colour.
    /// Defined only on non-empty cells.
    pub fn set_deleting(&mut self, time_left: u32)
        requires
            !(*old(self) is Empty),
        ensures
            *final(self) == (ColourType::Deleting(spec_cell_code(*old(self)), time_left)),
    {
        let c = *self;
        *self = match c {
            ColourType::Colour(code)
            | ColourType::NoPhysicsColour(code)
            | ColourType::Deleting(code, _) => ColourType::Deleting(code, time_left),
            _ => unreached(),
        };
    }
}

/// The palette entry of a non-empty cell.
pub open spec fn spec_cell_code(c: ColourType) -> ColourCode
    recommends
        !(c is Empty),
{
    match c {
        ColourType::Empty => ColourCode::Red,
        ColourType::Colour(code) => code,
        ColourType::NoPhysicsColour(code) => code,
        ColourType::Deleting(code, _) => code,
    }
}

/// Cells that block piece movement and rotation: settled particles and cells
/// counting down to removal. Empty cells and the piece's own cells do not.
pub open spec fn blocked(c: ColourType) -> bool {
    c is Colour || c is Deleting
}

/// A well-shaped grid view: `w` columns of `h` cells each.
pub open spec fn grid_wf(g: Seq<Seq<ColourType>>, w: int, h: int) -> bool {
    g.len() == w && forall|x: int| 0 <= x < w ==> (#[trigger] g[x]).len() == h
}

pub open spec fn in_bounds(w: int, h: int, p: (int, int)) -> bool {
    0 <= p.0 < w && 0 <= p.1 < h
}

/// Every pixel of piece `t` lies on the board and holds the piece's own
/// colour, still exempt from physics; the rotation state is canonical.
pub open spec fn piece_state_wf(
    g: Seq<Seq<ColourType>>,
    w: int,
    h: int,
    s: int,
    t: Tetromino,
    cc: ColourCode,
) -> bool {
    &&& t.rotation < 4
    &&& forall|i: int| 0 <= i < piece_pixels(t, s).len() ==> {
        let p = #[trigger] piece_pixels(t, s)[i];
        in_bounds(w, h, p) && g[p.0][p.1] == ColourType::NoPhysicsColour(cc)
    }
}

/// The board of a falling-block game at sub-cell pixel resolution: a `width`
/// by `height` grid of cells (each logical square is `square_pixel_width`
/// sub-pixels on a side), at most one falling piece, and the tick at which
/// the last piece was spawned or locked.
pub struct Game {
    width: usize,
    height: usize,
    square_pixel_width: usize,
    square_width: usize,
    square_height: usize,
    board: Vec<ColourType>,
    tetromino: Option<Tetromino>,
    time_since_last: u64,
}

impl View for Game {
    type V = Seq<Seq<ColourType>>;

    /// The grid as columns of cells: `self@[x][y]` is the cell at column `x`,
    /// row `y`, with row 0 the floor.
    closed spec fn view(&self) -> Seq<Seq<ColourType>> {
        Seq::new(self.width as nat, |x: int| Seq::new(self.height as nat, |y: int|
            self.board@[x * self.height + y]))
    }
}

proof fn lemma_wf_from_parts(g: &Game)
    requires
        g.board@.len() == g.width * g.height,
        1 <= g.square_pixel_width,
        g.width == g.square_pixel_width * g.square_width,
        g.height == g.square_pixel_width * g.square_height,
        4 <= g.square_width,
        23 <= g.square_height,
        g.width <= 0xFFFF,
        g.height <= 0xFFFF,
        g.tetromino is None,
    ensures
        g.wf(),
{
}

proof fn lemma_wf_from_parts_piece(g: &Game, t: Tetromino, cc: ColourCode)
    requires
        g.board@.len() == g.width * g.height,
        1 <= g.square_pixel_width,
        g.width == g.square_pixel_width * g.square_width,
        g.height == g.square_pixel_width * g.square_height,
        4 <= g.square_width,
        23 <= g.square_height,
        g.width <= 0xFFFF,
        g.height <= 0xFFFF,
        g.tetromino == Some(t),
        piece_state_wf(g.view(), g.width as int, g.height as int,
            g.square_pixel_width as int, t, cc),
    ensures
        g.wf(),
{
    assert(piece_state_wf(g.view(), g.spec_width(), g.spec_height(), g.spec_spw(), t, cc));
}

proof fn lemma_spw_bound(g: &Game)
    requires
        g.wf(),
    ensures
        g.spec_spw() <= 0xFFFF,
{
    let s = g.square_pixel_width as int;
    let q = g.square_width as int;
    assert(s <= s * q) by (nonlinear_arith)
        requires s >= 1 && q >= 1;
}

proof fn lemma_flat_index(w: int, h: int, x: int, y: int)
    requires
        0 <= x < w,
        0 <= y < h,
    ensures
        0 <= x * h + y < w * h,
        x * h + y == x * h + y,
{
    assert(0 <= x * h + y < w * h) by (nonlinear_arith)
        requires 0 <= x < w && 0 <= y < h;
}

proof fn lemma_flat_index_injective(h: int, x1: int, y1: int, x2: int, y2: int)
    requires
        h >= 1,
        0 <= y1 < h,
        0 <= y2 < h,
        0 <= x1,
        0 <= x2,
        x1 * h + y1 == x2 * h + y2,
    ensures
        x1 == x2 && y1 == y2,
{
    assert(x1 == x2 && y1 == y2) by (nonlinear_arith)
        requires
            h >= 1 && 0 <= y1 < h && 0 <= y2 < h && 0 <= x1 && 0 <= x2
                && x1 * h + y1 == x2 * h + y2;
}

impl Game {
    pub closed spec fn spec_width(&self) -> int {
        self.width as int
    }

    pub closed spec fn spec_height(&self) -> int {
        self.height as int
    }

    pub closed spec fn spec_spw(&self) -> int {
        self.square_pixel_width as int
    }

    pub closed spec fn spec_square_width(&self) -> int {
        self.square_width as int
    }

    pub closed spec fn spec_square_height(&self) -> int {
        self.square_height as int
    }

    pub closed spec fn spec_piece(&self) -> Option<Tetromino> {
        self.tetromino
    }

    pub closed spec fn spec_time_since_last(&self) -> u64 {
        self.time_since_last
    }

    /// The game's structural invariant: the grid has the stated dimensions,
    /// each a multiple of the sub-pixel resolution, the board is wide enough
    /// for the spawn column and tall enough for the spawn band, and any
    /// falling piece sits well-formed on the board.
    pub closed spec fn wf(&self) -> bool {
        &&& self.board@.len() == self.width * self.height
        &&& 1 <= self.square_pixel_width
        &&& self.width == self.square_pixel_width * self.square_width
        &&& self.height == self.square_pixel_width * self.square_height
        &&& 4 <= self.square_width
        &&& 23 <= self.square_height
        &&& self.width <= 0xFFFF
        &&& self.height <= 0xFFFF
        &&& match self.tetromino {
            None => true,
            Some(t) => exists|cc: ColourCode|
                piece_state_wf(self.view(), self.spec_width(), self.spec_height(),
                    self.spec_spw(), t, cc),
        }
    }

    /// A fresh, empty board. The dimensions must be multiples of
    /// `square_pixel_width`, wide enough for the fixed spawn column (4
    /// logical squares) and tall enough for the spawn band (23 squares).
    pub fn new(width: usize, height: usize, square_pixel_width: usize) -> (r: Self)
        requires
            1 <= square_pixel_width,
            width % square_pixel_width == 0,
            height % square_pixel_width == 0,
            width / square_pixel_width >= 4,
            height / square_pixel_width >= 23,
            width <= 0xFFFF,
            height <= 0xFFFF,
        ensures
            r.wf(),
            r.spec_width() == width,
            r.spec_height() == height,
            r.spec_spw() == square_pixel_width,
            r.spec_piece() is None,
            r.spec_time_since_last() == 0,
            forall|x: int, y: int| 0 <= x < width && 0 <= y < height
                ==> r@[x][y] == ColourType::Empty,
    {
        proof {
            assert(width * height <= 0xFFFF * 0xFFFF) by (nonlinear_arith)
                requires width <= 0xFFFF && height <= 0xFFFF;
        }
        let n = width * height;
        let mut board: Vec<ColourType> = Vec::new();
        let mut i: usize = 0;
        while i < n
            invariant
                i <= n,
                board@.len() == i,
                forall|j: int| 0 <= j < i ==> board@[j] == ColourType::Empty,
            decreases n - i,
        {
            board.push(ColourType::Empty);
            i += 1;
        }
        let square_width = width / square_pixel_width;
        let square_height = height / square_pixel_width;
        let r = Self {
            width,
            height,
            square_pixel_width,
            square_width,
            square_height,
            board,
            tetromino: None,
            time_since_last: 0,
        };
        proof {
            vstd::arithmetic::div_mod::lemma_fundamental_div_mod(width as int,
                square_pixel_width as int);
            vstd::arithmetic::div_mod::lemma_fundamental_div_mod(height as int,
                square_pixel_width as int);
            assert forall|x: int, y: int| 0 <= x < width && 0 <= y < height
                implies r@[x][y] == ColourType::Empty by {
                lemma_flat_index(width as int, height as int, x, y);
            }
        }
        r
    }

    pub fn width(&self) -> (r: usize)
        ensures
            r == self.spec_width(),
    {
        self.width
    }

    pub fn height(&self) -> (r: usize)
        ensures
            r == self.spec_height(),
    {
        self.height
    }

    pub fn square_pixel_width(&self) -> (r: usize)
        ensures
            r == self.spec_spw(),
    {
        self.square_pixel_width
    }

    /// The currently falling piece, if any.
    pub fn piece(&self) -> (r: Option<Tetromino>)
        ensures
            r == self.spec_piece(),
    {
        self.tetromino
    }

    /// Read one cell. The coordinates must be on the board.
    pub fn get_cell(&self, x: usize, y: usize) -> (r: ColourType)
        requires
            self.wf(),
            x < self.spec_width(),
            y < self.spec_height(),
        ensures
            r == self@[x as int][y as int],
    {
        let n = self.board.len();
        proof {
            lemma_flat_index(self.width as int, self.height as int, x as int, y as int);
            assert(n == self.width * self.height);
        }
        self.board[x * self.height + y]
    }

    /// Write one cell, leaving every other cell and every other field alone.
    fn set_cell_raw(&mut self, x: usize, y: usize, c: ColourType)
        requires
            old(self).wf() || (old(self).board@.len()
                == old(self).spec_width() * old(self).spec_height()),
            x < old(self).spec_width(),
            y < old(self).spec_height(),
        ensures
            final(self)@ == old(self)@.update(x as int,
                old(self)@[x as int].update(y as int, c)),
            final(self).spec_width() == old(self).spec_width(),
            final(self).spec_height() == old(self).spec_height(),
            final(self).spec_spw() == old(self).spec_spw(),
            final(self).spec_piece() == old(self).spec_piece(),
            final(self).spec_time_since_last() == old(self).spec_time_since_last(),
            final(self).square_width == old(self).square_width,
            final(self).square_height == old(self).square_height,
            final(self).board@.len() == old(self).board@.len(),
    {
        let n = self.board.len();
        proof {
            lemma_flat_index(self.width as int, self.height as int, x as int, y as int);
            assert(n == self.width * self.height);
        }
        let idx = x * self.height + y;
        self.board.set(idx, c);
        proof {
            let w = self.width as int;
            let h = self.height as int;
            let target = old(self)@.update(x as int, old(self)@[x as int].update(y as int, c));
            assert forall|x2: int| 0 <= x2 < w implies self@[x2] =~= target[x2] by {
                assert forall|y2: int| 0 <= y2 < h implies self@[x2][y2] == target[x2][y2] by {
                    lemma_flat_index(w, h, x2, y2);
                    if x2 * h + y2 == x as int * h + y as int {
                        lemma_flat_index_injective(h, x2, y2, x as int, y as int);
                    }
                }
            }
            assert(self@ =~= target);
        }
    }

    /// Write one cell of a piece-less board: the grid operation offered to a
    /// collaborator seeding or editing a board between frames. (While a piece
    /// is falling its cells are owned by the piece, so writes are refused.)
    pub fn set_cell(&mut self, x: usize, y: usize, c: ColourType)
        requires
            old(self).wf(),
            old(self).spec_piece() is None,
            x < old(self).spec_width(),
            y < old(self).spec_height(),
        ensures
            final(self).wf(),
            final(self)@ == old(self)@.update(x as int,
                old(self)@[x as int].update(y as int, c)),
            final(self).spec_width() == old(self).spec_width(),
            final(self).spec_height() == old(self).spec_height(),
            final(self).spec_spw() == old(self).spec_spw(),
            final(self).spec_piece() is None,
            final(self).spec_time_since_last() == old(self).spec_time_since_last(),
    {
        self.set_cell_raw(x, y, c);
    }

    /// Relocate one cell: the destination takes the source's state and the
    /// source becomes empty, in that order.
    fn move_pixel(&mut self, from: (usize, usize), to: (usize, usize))
        requires
            old(self).wf() || (old(self).board@.len()
                == old(self).spec_width() * old(self).spec_height()),
            from.0 < old(self).spec_width(),
            from.1 < old(self).spec_height(),
            to.0 < old(self).spec_width(),
            to.1 < old(self).spec_height(),
        ensures
            ({
                let g1 = old(self)@.update(to.0 as int,
                    old(self)@[to.0 as int].update(to.1 as int,
                        old(self)@[from.0 as int][from.1 as int]));
                final(self)@ == g1.update(from.0 as int,
                    g1[from.0 as int].update(from.1 as int, ColourType::Empty))
            }),
            final(self).spec_width() == old(self).spec_width(),
            final(self).spec_height() == old(self).spec_height(),
            final(self).spec_spw() == old(self).spec_spw(),
            final(self).spec_piece() == old(self).spec_piece(),
            final(self).spec_time_since_last() == old(self).spec_time_since_last(),
            final(self).square_width == old(self).square_width,
            final(self).square_height == old(self).square_height,
            final(self).board@.len() == old(self).board@.len(),
    {
        let n = self.board.len();
        proof {
            lemma_flat_index(self.width as int, self.height as int,
                from.0 as int, from.1 as int);
            assert(n == self.width * self.height);
        }
        let c = self.board[from.0 * self.height + from.1];
        self.set_cell_raw(to.0, to.1, c);
        self.set_cell_raw(from.0, from.1, ColourType::Empty);
    }
}

/// `ps` translated by `(dx, dy)`.
pub open spec fn shifted(ps: Seq<(int, int)>, dx: int, dy: int) -> Seq<(int, int)> {
    Seq::new(ps.len(), |i: int| (ps[i].0 + dx, ps[i].1 + dy))
}

/// Every pixel of `ps`, translated by `(dx, dy)`, lands on the board and on
/// a cell that does not block piece movement.
pub open spec fn shift_free(
    g: Seq<Seq<ColourType>>,
    w: int,
    h: int,
    ps: Seq<(int, int)>,
    dx: int,
    dy: int,
) -> bool {
    forall|i: int| 0 <= i < ps.len() ==> {
        let p = #[trigger] ps[i];
        in_bounds(w, h, (p.0 + dx, p.1 + dy)) && !blocked(g[p.0 + dx][p.1 + dy])
    }
}

/// `m` is the bounded greedy shift distance in direction `(dx, dy)`: every
/// single-pixel shift up to `m` is collision-free, and either the cap
/// `limit` was reached or the next shift is not free. These properties pin
/// `m` down uniquely.
pub open spec fn max_shift_props(
    g: Seq<Seq<ColourType>>,
    w: int,
    h: int,
    ps: Seq<(int, int)>,
    dx: int,
    dy: int,
    limit: int,
    m: int,
) -> bool {
    &&& 0 <= m <= limit
    &&& forall|j: int| 1 <= j <= m ==> #[trigger] shift_free(g, w, h, ps, j * dx, j * dy)
    &&& m < limit ==> !shift_free(g, w, h, ps, (m + 1) * dx, (m + 1) * dy)
}

/// Only one shift distance satisfies `max_shift_props`.
pub proof fn lemma_max_shift_unique(
    g: Seq<Seq<ColourType>>,
    w: int,
    h: int,
    ps: Seq<(int, int)>,
    dx: int,
    dy: int,
    limit: int,
    m1: int,
    m2: int,
)
    requires
        max_shift_props(g, w, h, ps, dx, dy, limit, m1),
        max_shift_props(g, w, h, ps, dx, dy, limit, m2),
    ensures
        m1 == m2,
{
    if m1 < m2 {
        assert(shift_free(g, w, h, ps, (m1 + 1) * dx, (m1 + 1) * dy));
    }
    if m2 < m1 {
        assert(shift_free(g, w, h, ps, (m2 + 1) * dx, (m2 + 1) * dy));
    }
}

/// The grid after relocating a piece: every destination pixel takes the
/// piece's value `v`, every vacated source pixel becomes empty, and every
/// other cell keeps its state.
pub open spec fn board_after_move(
    g: Seq<Seq<ColourType>>,
    w: int,
    h: int,
    src: Seq<(int, int)>,
    dst: Seq<(int, int)>,
    v: ColourType,
) -> Seq<Seq<ColourType>> {
    Seq::new(w as nat, |x: int| Seq::new(h as nat, |y: int|
        if dst.contains((x, y)) {
            v
        } else if src.contains((x, y)) {
            ColourType::Empty
        } else {
            g[x][y]
        }))
}

/// The rotation that a rotate request aims for: the next state mod 4.
pub open spec fn spec_rotated(t: Tetromino) -> Tetromino {
    Tetromino {
        shape: t.shape,
        position: t.position,
        rotation: if t.rotation >= 3 { 0u8 } else { (t.rotation + 1) as u8 },
    }
}

/// Coordinates small enough that shifted copies fit comfortably in `i64`.
pub open spec fn pix_small(v: Seq<(i64, i64)>) -> bool {
    forall|i: int| 0 <= i < v.len() ==> {
        let p = #[trigger] v[i];
        -0x1000_0000 <= p.0 <= 0x1000_0000 && -0x1000_0000 <= p.1 <= 0x1000_0000
    }
}

proof fn lemma_take_contains(ps: Seq<(int, int)>, i: int, q: (int, int))
    requires
        0 <= i < ps.len(),
    ensures
        ps.take(i + 1).contains(q) <==> (ps.take(i).contains(q) || q == ps[i]),
{
    assert(ps.take(i + 1) =~= ps.take(i).push(ps[i]));
    if ps.take(i).contains(q) {
        let j = choose|j: int| 0 <= j < ps.take(i).len() && #[trigger] ps.take(i)[j] == q;
        assert(ps.take(i + 1)[j] == q);
    }
    if q == ps[i] {
        assert(ps.take(i + 1)[i] == q);
    }
    if ps.take(i + 1).contains(q) {
        let j = choose|j: int| 0 <= j < ps.take(i + 1).len() && #[trigger] ps.take(i + 1)[j] == q;
        if j < i {
            assert(ps.take(i)[j] == q);
        }
    }
}

/// A piece translated in space has exactly the translated pixels.
proof fn lemma_pixels_translate(t: Tetromino, t2: Tetromino, s: int, dx: int, dy: int)
    requires
        t2.shape == t.shape,
        t2.rotation == t.rotation,
        t2.position.0 as int == t.position.0 as int + dx,
        t2.position.1 as int == t.position.1 as int + dy,
        s >= 1,
    ensures
        piece_pixels(t2, s) == shifted(piece_pixels(t, s), dx, dy),
{
    lemma_pixels_translate_upto(t, t2, s, dx, dy, 16);
}

proof fn lemma_pixels_translate_upto(
    t: Tetromino,
    t2: Tetromino,
    s: int,
    dx: int,
    dy: int,
    n: nat,
)
    requires
        t2.shape == t.shape,
        t2.rotation == t.rotation,
        t2.position.0 as int == t.position.0 as int + dx,
        t2.position.1 as int == t.position.1 as int + dy,
        s >= 1,
    ensures
        crate::game::tetromino::pixels_of_cells(t2, s, n)
            == shifted(crate::game::tetromino::pixels_of_cells(t, s, n), dx, dy),
    decreases n,
{
    if n == 0 {
        assert(pixels_of_cells(t2, s, n) =~= shifted(pixels_of_cells(t, s, n), dx, dy));
    } else {
        lemma_pixels_translate_upto(t, t2, s, dx, dy, (n - 1) as nat);
        let c = (n - 1) as int;
        let sx = c / 4;
        let sy = c % 4;
        let a = pixels_of_cells(t, s, n);
        let b = pixels_of_cells(t2, s, n);
        let pa = pixels_of_cells(t, s, (n - 1) as nat);
        let pb = pixels_of_cells(t2, s, (n - 1) as nat);
        assert(pb.len() == shifted(pa, dx, dy).len());
        if spec_mask(t.shape, t.rotation, sy, sx) {
            let ca = cell_pixels(t.position.0 as int + sx * s, t.position.1 as int + sy * s, s);
            let cb = cell_pixels(t2.position.0 as int + sx * s, t2.position.1 as int + sy * s, s);
            assert(ca.len() == cb.len());
            assert forall|i: int| 0 <= i < b.len() implies b[i] == shifted(a, dx, dy)[i] by {
                if i < pb.len() {
                    assert(b[i] == pb[i]);
                    assert(a[i] == pa[i]);
                    assert(pb[i] == shifted(pa, dx, dy)[i]);
                } else {
                    let k = i - pb.len();
                    assert(b[i] == cb[k]);
                    assert(a[i] == ca[k]);
                }
            }
            assert(b =~= shifted(a, dx, dy));
        } else {
            assert(b =~= pb + Seq::<(int, int)>::empty());
            assert(a =~= pa + Seq::<(int, int)>::empty());
            assert forall|i: int| 0 <= i < b.len() implies b[i] == shifted(a, dx, dy)[i] by {
                assert(b[i] == pb[i]);
                assert(a[i] == pa[i]);
            }
            assert(b =~= shifted(a, dx, dy));
        }
    }
}

/// A piece whose pixels all lie on the board sits close to it: its anchor
/// position strays at most one mask width outside.
proof fn lemma_pos_bounds(t: Tetromino, s: int, w: int, h: int)
    requires
        s >= 1,
        forall|i: int| 0 <= i < piece_pixels(t, s).len()
            ==> in_bounds(w, h, #[trigger] piece_pixels(t, s)[i]),
    ensures
        -(4 * s) < t.position.0 < w,
        -(4 * s) < t.position.1 < h,
{
    lemma_piece_pixels_bounds(t, s);
    assert(s * s >= 1) by (nonlinear_arith)
        requires s >= 1;
    let p = piece_pixels(t, s)[0];
    assert(in_bounds(w, h, p));
}

fn shift_pixels(px: &Vec<(i64, i64)>, dx: i64, dy: i64) -> (v: Vec<(i64, i64)>)
    requires
        pix_small(px@),
        -0x1_0000_0000 <= dx <= 0x1_0000_0000,
        -0x1_0000_0000 <= dy <= 0x1_0000_0000,
    ensures
        pix_view(v@) == shifted(pix_view(px@), dx as int, dy as int),
{
    let mut v: Vec<(i64, i64)> = Vec::new();
    let mut i: usize = 0;
    while i < px.len()
        invariant
            i <= px.len(),
            pix_small(px@),
            -0x1_0000_0000 <= dx <= 0x1_0000_0000,
            -0x1_0000_0000 <= dy <= 0x1_0000_0000,
            v@.len() == i,
            forall|j: int| 0 <= j < i ==> #[trigger] v@[j]
                == ((px@[j].0 + dx) as i64, (px@[j].1 + dy) as i64),
        decreases px.len() - i,
    {
        let p = px[i];
        v.push((p.0 + dx, p.1 + dy));
        i += 1;
    }
    proof {
        assert(pix_view(v@) =~= shifted(pix_view(px@), dx as int, dy as int));
    }
    v
}

impl Game {
    /// Whether every pixel of `px`, translated by `(dx, dy)`, lands on the
    /// board and away from any blocking cell.
    fn shift_free_exec(&self, px: &Vec<(i64, i64)>, dx: i64, dy: i64) -> (r: bool)
        requires
            self.wf(),
            pix_small(px@),
            -0x1_0000_0000 <= dx <= 0x1_0000_0000,
            -0x1_0000_0000 <= dy <= 0x1_0000_0000,
        ensures
            r == shift_free(self@, self.spec_width(), self.spec_height(), pix_view(px@),
                dx as int, dy as int),
    {
        let w = self.width;
        let h = self.height;
        let mut i: usize = 0;
        while i < px.len()
            invariant
                self.wf(),
                w == self.spec_width(),
                h == self.spec_height(),
                pix_small(px@),
                -0x1_0000_0000 <= dx <= 0x1_0000_0000,
                -0x1_0000_0000 <= dy <= 0x1_0000_0000,
                i <= px.len(),
                forall|j: int| 0 <= j < i ==> {
                    let p = #[trigger] pix_view(px@)[j];
                    in_bounds(w as int, h as int, (p.0 + dx, p.1 + dy))
                        && !blocked(self@[p.0 + dx][p.1 + dy])
                },
            decreases px.len() - i,
        {
            let p = px[i];
            let qx = p.0 + dx;
            let qy = p.1 + dy;
            proof {
                assert(pix_view(px@)[i as int] == (p.0 as int, p.1 as int));
            }
            if qx < 0 || qy < 0 || qx >= w as i64 || qy >= h as i64 {
                return false;
            }
            match self.get_cell(qx as usize, qy as usize) {
                ColourType::Colour(_) | ColourType::Deleting(_, _) => {
                    return false;
                },
                _ => {},
            }
            i += 1;
        }
        true
    }

    /// The bounded greedy shift distance of the pixels `px` in direction
    /// `(dx, dy)`: how far they can move, one sub-pixel at a time, before
    /// hitting a blocking cell or the board edge, capped at `limit`.
    fn find_shift(&self, px: &Vec<(i64, i64)>, dx: i64, dy: i64, limit: usize) -> (m: usize)
        requires
            self.wf(),
            pix_small(px@),
            dx == -1 || dx == 0 || dx == 1,
            dy == -1 || dy == 0 || dy == 1,
            limit <= 0xFFFF_FFFF,
        ensures
            max_shift_props(self@, self.spec_width(), self.spec_height(), pix_view(px@),
                dx as int, dy as int, limit as int, m as int),
    {
        let mut m: usize = 0;
        let mut stopped = false;
        while !stopped && m < limit
            invariant
                self.wf(),
                pix_small(px@),
                dx == -1 || dx == 0 || dx == 1,
                dy == -1 || dy == 0 || dy == 1,
                limit <= 0xFFFF_FFFF,
                m <= limit,
                forall|j: int| 1 <= j <= m ==> #[trigger] shift_free(self@, self.spec_width(),
                    self.spec_height(), pix_view(px@), j * (dx as int), j * (dy as int)),
                stopped ==> m < limit && !shift_free(self@, self.spec_width(),
                    self.spec_height(), pix_view(px@), (m + 1) * (dx as int),
                    (m + 1) * (dy as int)),
            decreases 2 * (limit - m) + if stopped { 0int } else { 1int },
        {
            let d = (m + 1) as i64;
            let sdx: i64 = if dx == 1 { d } else if dx == -1 { -d } else { 0 };
            let sdy: i64 = if dy == 1 { d } else if dy == -1 { -d } else { 0 };
            proof {
                assert(sdx as int == (m + 1) * (dx as int));
                assert(sdy as int == (m + 1) * (dy as int));
            }
            if self.shift_free_exec(px, sdx, sdy) {
                m += 1;
            } else {
                stopped = true;
            }
        }
        m
    }

    /// Relocate a piece's cells: empty every source pixel, then paint every
    /// destination pixel with `v`.
    fn repaint(&mut self, src: &Vec<(i64, i64)>, dst: &Vec<(i64, i64)>, v: ColourType)
        requires
            old(self).board@.len() == old(self).spec_width() * old(self).spec_height(),
            forall|i: int| 0 <= i < pix_view(src@).len()
                ==> in_bounds(old(self).spec_width(), old(self).spec_height(),
                    #[trigger] pix_view(src@)[i]),
            forall|i: int| 0 <= i < pix_view(dst@).len()
                ==> in_bounds(old(self).spec_width(), old(self).spec_height(),
                    #[trigger] pix_view(dst@)[i]),
        ensures
            final(self)@ == board_after_move(old(self)@, old(self).spec_width(),
                old(self).spec_height(), pix_view(src@), pix_view(dst@), v),
            final(self).spec_width() == old(self).spec_width(),
            final(self).spec_height() == old(self).spec_height(),
            final(self).spec_spw() == old(self).spec_spw(),
            final(self).spec_piece() == old(self).spec_piece(),
            final(self).spec_time_since_last() == old(self).spec_time_since_last(),
            final(self).square_width == old(self).square_width,
            final(self).square_height == old(self).square_height,
            final(self).board@.len() == old(self).board@.len(),
    {
        let ghost g0 = self@;
        let ghost w = self.spec_width();
        let ghost h = self.spec_height();
        let ghost srcv = pix_view(src@);
        let ghost dstv = pix_view(dst@);
        let mut i: usize = 0;
        while i < src.len()
            invariant
                self.board@.len() == self.spec_width() * self.spec_height(),
                self.spec_width() == w,
                self.spec_height() == h,
                self.spec_spw() == old(self).spec_spw(),
                self.spec_piece() == old(self).spec_piece(),
                self.spec_time_since_last() == old(self).spec_time_since_last(),
                self.square_width == old(self).square_width,
                self.square_height == old(self).square_height,
                self.board@.len() == old(self).board@.len(),
                g0 == old(self)@,
                srcv == pix_view(src@),
                dstv == pix_view(dst@),
                i <= src.len(),
                srcv.len() == src@.len(),
                forall|k: int| 0 <= k < srcv.len()
                    ==> in_bounds(w, h, #[trigger] srcv[k]),
                forall|x: int, y: int| 0 <= x < w && 0 <= y < h
                    ==> #[trigger] self@[x][y] == if srcv.take(i as int).contains((x, y)) {
                        ColourType::Empty
                    } else {
                        g0[x][y]
                    },
            decreases src.len() - i,
        {
            let p = src[i];
            proof {
                assert(srcv[i as int] == (p.0 as int, p.1 as int));
                assert(in_bounds(w, h, srcv[i as int]));
            }
            let ghost gprev = self@;
            self.set_cell_raw(p.0 as usize, p.1 as usize, ColourType::Empty);
            proof {
                assert forall|x: int, y: int| 0 <= x < w && 0 <= y < h
                    implies #[trigger] self@[x][y]
                        == if srcv.take(i + 1).contains((x, y)) {
                            ColourType::Empty
                        } else {
                            g0[x][y]
                        } by {
                    lemma_take_contains(srcv, i as int, (x, y));
                    if x == p.0 as int && y == p.1 as int {
                        assert(self@[x][y] == ColourType::Empty);
                    } else {
                        assert(self@[x][y] == gprev[x][y]);
                    }
                }
            }
            i += 1;
        }
        proof {
            assert(srcv.take(srcv.len() as int) =~= srcv);
        }
        let mut i2: usize = 0;
        while i2 < dst.len()
            invariant
                self.board@.len() == self.spec_width() * self.spec_height(),
                self.spec_width() == w,
                self.spec_height() == h,
                self.spec_spw() == old(self).spec_spw(),
                self.spec_piece() == old(self).spec_piece(),
                self.spec_time_since_last() == old(self).spec_time_since_last(),
                self.square_width == old(self).square_width,
                self.square_height == old(self).square_height,
                self.board@.len() == old(self).board@.len(),
                g0 == old(self)@,
                srcv == pix_view(src@),
                dstv == pix_view(dst@),
                i2 <= dst.len(),
                dstv.len() == dst@.len(),
                forall|k: int| 0 <= k < dstv.len()
                    ==> in_bounds(w, h, #[trigger] dstv[k]),
                forall|x: int, y: int| 0 <= x < w && 0 <= y < h
                    ==> #[trigger] self@[x][y] == if dstv.take(i2 as int).contains((x, y)) {
                        v
                    } else if srcv.contains((x, y)) {
                        ColourType::Empty
                    } else {
                        g0[x][y]
                    },
            decreases dst.len() - i2,
        {
            let p = dst[i2];
            proof {
                assert(dstv[i2 as int] == (p.0 as int, p.1 as int));
                assert(in_bounds(w, h, dstv[i2 as int]));
            }
            let ghost gprev = self@;
            self.set_cell_raw(p.0 as usize, p.1 as usize, v);
            proof {
                assert forall|x: int, y: int| 0 <= x < w && 0 <= y < h
                    implies #[trigger] self@[x][y]
                        == if dstv.take(i2 + 1).contains((x, y)) {
                            v
                        } else if srcv.contains((x, y)) {
                            ColourType::Empty
                        } else {
                            g0[x][y]
                        } by {
                    lemma_take_contains(dstv, i2 as int, (x, y));
                    if x == p.0 as int && y == p.1 as int {
                        assert(self@[x][y] == v);
                    } else {
                        assert(self@[x][y] == gprev[x][y]);
                    }
                }
            }
            i2 += 1;
        }
        proof {
            assert(dstv.take(dstv.len() as int) =~= dstv);
            let target = board_after_move(g0, w, h, srcv, dstv, v);
            assert forall|x: int| 0 <= x < w implies self@[x] =~= target[x] by {
                assert forall|y: int| 0 <= y < h implies self@[x][y] == target[x][y] by {
                    assert(self@[x][y] == if dstv.contains((x, y)) {
                        v
                    } else if srcv.contains((x, y)) {
                        ColourType::Empty
                    } else {
                        g0[x][y]
                    });
                }
            }
            assert(self@ =~= target);
        }
    }
}

/// What one bounded slide of the falling piece `t` does, for shift distance
/// `m` and piece colour `cc`: `m` is the greedy collision-free distance in
/// direction `(dx, dy)` capped at `limit`; the piece's cells move by `m`
/// sub-pixels. When `lock` is set and the slide was truncated by a collision
/// or the board edge, the relocated cells lock (they become `Colour` and the
/// piece is surrendered); otherwise they stay `NoPhysicsColour` and the
/// piece's position advances by the distance moved.
pub open spec fn slide_rel(
    g: Seq<Seq<ColourType>>,
    w: int,
    h: int,
    s: int,
    t: Tetromino,
    dx: int,
    dy: int,
    limit: int,
    lock: bool,
    m: int,
    cc: ColourCode,
    g2: Seq<Seq<ColourType>>,
    p2: Option<Tetromino>,
) -> bool {
    &&& piece_state_wf(g, w, h, s, t, cc)
    &&& max_shift_props(g, w, h, piece_pixels(t, s), dx, dy, limit, m)
    &&& if lock && m < limit {
        &&& g2 == board_after_move(g, w, h, piece_pixels(t, s),
            shifted(piece_pixels(t, s), m * dx, m * dy), ColourType::Colour(cc))
        &&& p2 is None
    } else {
        &&& g2 == board_after_move(g, w, h, piece_pixels(t, s),
            shifted(piece_pixels(t, s), m * dx, m * dy), ColourType::NoPhysicsColour(cc))
        &&& p2 is Some
        &&& p2->Some_0.shape == t.shape
        &&& p2->Some_0.rotation == t.rotation
        &&& p2->Some_0.position.0 as int == t.position.0 as int + m * dx
        &&& p2->Some_0.position.1 as int == t.position.1 as int + m * dy
    }
}

impl Game {
    /// Move the falling piece, if any, by up to `limit` sub-pixels in the
    /// unit direction `(dx, dy)`, stopping at the first blocked shift; when
    /// `lock_on_stop` is set and the slide was truncated, lock the piece.
    fn slide(&mut self, dx: i64, dy: i64, limit: usize, lock_on_stop: bool)
        requires
            old(self).wf(),
            dx == -1 || dx == 0 || dx == 1,
            dy == -1 || dy == 0 || dy == 1,
            limit <= 0xFFFF_FFFF,
        ensures
            final(self).wf(),
            final(self).spec_width() == old(self).spec_width(),
            final(self).spec_height() == old(self).spec_height(),
            final(self).spec_spw() == old(self).spec_spw(),
            final(self).spec_time_since_last() == old(self).spec_time_since_last(),
            old(self).spec_piece() is None ==> final(self)@ == old(self)@
                && final(self).spec_piece() is None,
            old(self).spec_piece() is Some ==> exists|m: int, cc: ColourCode|
                #[trigger] slide_rel(old(self)@, old(self).spec_width(),
                    old(self).spec_height(), old(self).spec_spw(),
                    old(self).spec_piece()->Some_0, dx as int, dy as int, limit as int,
                    lock_on_stop, m, cc, final(self)@, final(self).spec_piece()),
    {
        let ghost w = self.spec_width();
        let ghost h = self.spec_height();
        let ghost s = self.spec_spw();
        let t = match &self.tetromino {
            None => {
                return;
            },
            Some(tt) => *tt,
        };
        let ghost cc = choose|cc: ColourCode| piece_state_wf(self@, w, h, s, t, cc);
        let s_exec = self.square_pixel_width;
        proof {
            assert(4 * s <= w) by (nonlinear_arith)
                requires
                    w == s * self.square_width as int && self.square_width >= 4 && s >= 1;
            lemma_piece_pixels_bounds(t, s);
            lemma_pos_bounds(t, s, w, h);
            assert(s * s >= 1) by (nonlinear_arith)
                requires s >= 1;
        }
        let px = t.pixels(s_exec);
        let ghost pxv = pix_view(px@);
        proof {
            assert(pxv == piece_pixels(t, s));
            assert forall|i: int| 0 <= i < px@.len() implies {
                let p = #[trigger] px@[i];
                -0x1000_0000 <= p.0 <= 0x1000_0000 && -0x1000_0000 <= p.1 <= 0x1000_0000
            } by {
                assert(pxv[i] == (px@[i].0 as int, px@[i].1 as int));
                assert(in_bounds(w, h, pxv[i]));
            }
        }
        let m = self.find_shift(&px, dx, dy, limit);
        let mdx: i64 = if dx == 1 { m as i64 } else if dx == -1 { -(m as i64) } else { 0 };
        let mdy: i64 = if dy == 1 { m as i64 } else if dy == -1 { -(m as i64) } else { 0 };
        proof {
            assert(mdx as int == m * (dx as int));
            assert(mdy as int == m * (dy as int));
        }
        let dst = shift_pixels(&px, mdx, mdy);
        let ghost dstv = pix_view(dst@);
        proof {
            assert(dstv == shifted(pxv, m * (dx as int), m * (dy as int)));
            if m > 0 {
                assert(shift_free(self@, w, h, pxv, m as int * (dx as int),
                    m as int * (dy as int)));
            }
            assert forall|i: int| 0 <= i < dstv.len()
                implies in_bounds(w, h, #[trigger] dstv[i]) by {
                assert(dstv[i] == (pxv[i].0 + m * (dx as int), pxv[i].1 + m * (dy as int)));
                if m > 0 {
                    assert(in_bounds(w, h, (pxv[i].0 + m * (dx as int),
                        pxv[i].1 + m * (dy as int))));
                } else {
                    assert(in_bounds(w, h, pxv[i]));
                }
            }
        }
        let p0 = px[0];
        proof {
            assert(pxv[0] == (p0.0 as int, p0.1 as int));
            assert(in_bounds(w, h, pxv[0]));
            assert(self@[p0.0 as int][p0.1 as int] == ColourType::NoPhysicsColour(cc));
        }
        let c0 = self.get_cell(p0.0 as usize, p0.1 as usize);
        let code = match c0 {
            ColourType::NoPhysicsColour(code) => code,
            _ => unreached(),
        };
        let ghost g0 = self@;
        if lock_on_stop && m < limit {
            self.repaint(&px, &dst, ColourType::Colour(code));
            self.tetromino = None;
            proof {
                lemma_wf_from_parts(self);
                assert(slide_rel(g0, w, h, s, t, dx as int, dy as int, limit as int,
                    lock_on_stop, m as int, cc, self@, self.spec_piece()));
            }
        } else {
            self.repaint(&px, &dst, ColourType::NoPhysicsColour(code));
            let t2 = Tetromino::new(t.shape, (t.position.0 + mdx, t.position.1 + mdy),
                t.rotation);
            self.tetromino = Some(t2);
            proof {
                lemma_pixels_translate(t, t2, s, m * (dx as int), m * (dy as int));
                let ps2 = piece_pixels(t2, s);
                assert forall|i: int| 0 <= i < ps2.len() implies {
                    let p = #[trigger] ps2[i];
                    in_bounds(w, h, p) && self@[p.0][p.1] == ColourType::NoPhysicsColour(cc)
                } by {
                    assert(ps2[i] == (pxv[i].0 + m * (dx as int), pxv[i].1 + m * (dy as int)));
                    assert(ps2[i] == dstv[i]);
                    assert(in_bounds(w, h, dstv[i]));
                    assert(dstv.contains(dstv[i]));
                }
                assert(piece_state_wf(self@, w, h, s, t2, cc));
                lemma_wf_from_parts_piece(self, t2, cc);
                assert(slide_rel(g0, w, h, s, t, dx as int, dy as int, limit as int,
                    lock_on_stop, m as int, cc, self@, self.spec_piece()));
            }
        }
    }

    /// Move the falling piece left by up to one logical square, stopping at
    /// the first shift that would leave the board or land on a blocking cell.
    pub fn move_left(&mut self)
        requires
            old(self).wf(),
        ensures
            final(self).wf(),
            final(self).spec_width() == old(self).spec_width(),
            final(self).spec_height() == old(self).spec_height(),
            final(self).spec_spw() == old(self).spec_spw(),
            final(self).spec_time_since_last() == old(self).spec_time_since_last(),
            old(self).spec_piece() is None ==> final(self)@ == old(self)@
                && final(self).spec_piece() is None,
            old(self).spec_piece() is Some ==> exists|m: int, cc: ColourCode|
                #[trigger] slide_rel(old(self)@, old(self).spec_width(),
                    old(self).spec_height(), old(self).spec_spw(),
                    old(self).spec_piece()->Some_0, -1, 0, old(self).spec_spw(), false,
                    m, cc, final(self)@, final(self).spec_piece()),
    {
        let s = self.square_pixel_width;
        proof {
            lemma_spw_bound(self);
        }
        self.slide(-1, 0, s, false);
    }

    /// Move the falling piece right by up to one logical square, stopping at
    /// the first shift that would leave the board or land on a blocking cell.
    pub fn move_right(&mut self)
        requires
            old(self).wf(),
        ensures
            final(self).wf(),
            final(self).spec_width() == old(self).spec_width(),
            final(self).spec_height() == old(self).spec_height(),
            final(self).spec_spw() == old(self).spec_spw(),
            final(self).spec_time_since_last() == old(self).spec_time_since_last(),
            old(self).spec_piece() is None ==> final(self)@ == old(self)@
                && final(self).spec_piece() is None,
            old(self).spec_piece() is Some ==> exists|m: int, cc: ColourCode|
                #[trigger] slide_rel(old(self)@, old(self).spec_width(),
                    old(self).spec_height(), old(self).spec_spw(),
                    old(self).spec_piece()->Some_0, 1, 0, old(self).spec_spw(), false,
                    m, cc, final(self)@, final(self).spec_piece()),
    {
        let s = self.square_pixel_width;
        proof {
            lemma_spw_bound(self);
        }
        self.slide(1, 0, s, false);
    }

    /// Move the falling piece down by up to `amount` sub-pixels. If the
    /// slide is truncated by a collision or the floor, the piece locks:
    /// its cells become settled particles and the piece is surrendered.
    pub fn move_down_amount(&mut self, amount: u32)
        requires
            old(self).wf(),
        ensures
            final(self).wf(),
            final(self).spec_width() == old(self).spec_width(),
            final(self).spec_height() == old(self).spec_height(),
            final(self).spec_spw() == old(self).spec_spw(),
            final(self).spec_time_since_last() == old(self).spec_time_since_last(),
            old(self).spec_piece() is None ==> final(self)@ == old(self)@
                && final(self).spec_piece() is None,
            old(self).spec_piece() is Some ==> exists|m: int, cc: ColourCode|
                #[trigger] slide_rel(old(self)@, old(self).spec_width(),
                    old(self).spec_height(), old(self).spec_spw(),
                    old(self).spec_piece()->Some_0, 0, -1, amount as int, true,
                    m, cc, final(self)@, final(self).spec_piece()),
    {
        self.slide(0, -1, amount as usize, true);
    }

    /// Move the falling piece down by one logical square, locking on
    /// truncation.
    pub fn move_down(&mut self)
        requires
            old(self).wf(),
        ensures
            final(self).wf(),
            final(self).spec_width() == old(self).spec_width(),
            final(self).spec_height() == old(self).spec_height(),
            final(self).spec_spw() == old(self).spec_spw(),
            final(self).spec_time_since_last() == old(self).spec_time_since_last(),
            old(self).spec_piece() is None ==> final(self)@ == old(self)@
                && final(self).spec_piece() is None,
            old(self).spec_piece() is Some ==> exists|m: int, cc: ColourCode|
                #[trigger] slide_rel(old(self)@, old(self).spec_width(),
                    old(self).spec_height(), old(self).spec_spw(),
                    old(self).spec_piece()->Some_0, 0, -1, old(self).spec_spw(), true,
                    m, cc, final(self)@, final(self).spec_piece()),
    {
        let s = self.square_pixel_width;
        proof {
            lemma_spw_bound(self);
        }
        self.slide(0, -1, s, true);
    }

    /// Advance the falling piece's rotation state, if the rotated footprint
    /// lies on the board and collides with nothing; an illegal rotation is
    /// rejected outright and leaves rotation and board unchanged.
    pub fn rotate(&mut self)
        requires
            old(self).wf(),
        ensures
            final(self).wf(),
            final(self).spec_width() == old(self).spec_width(),
            final(self).spec_height() == old(self).spec_height(),
            final(self).spec_spw() == old(self).spec_spw(),
            final(self).spec_time_since_last() == old(self).spec_time_since_last(),
            old(self).spec_piece() is None ==> final(self)@ == old(self)@
                && final(self).spec_piece() is None,
            old(self).spec_piece() is Some ==> ({
                let t = old(self).spec_piece()->Some_0;
                let t2 = spec_rotated(t);
                let g = old(self)@;
                let w = old(self).spec_width();
                let h = old(self).spec_height();
                let s = old(self).spec_spw();
                if !shift_free(g, w, h, piece_pixels(t2, s), 0, 0) {
                    final(self)@ == g && final(self).spec_piece() == Some(t)
                } else {
                    exists|cc: ColourCode| #![auto] {
                        &&& piece_state_wf(g, w, h, s, t, cc)
                        &&& final(self)@ == board_after_move(g, w, h, piece_pixels(t, s),
                            piece_pixels(t2, s), ColourType::NoPhysicsColour(cc))
                        &&& final(self).spec_piece() == Some(t2)
                    }
                }
            }),
    {
        let ghost w = self.spec_width();
        let ghost h = self.spec_height();
        let ghost s = self.spec_spw();
        let t = match &self.tetromino {
            None => {
                return;
            },
            Some(tt) => *tt,
        };
        let ghost cc = choose|cc: ColourCode| piece_state_wf(self@, w, h, s, t, cc);
        let s_exec = self.square_pixel_width;
        proof {
            assert(4 * s <= w) by (nonlinear_arith)
                requires
                    w == s * self.square_width as int && self.square_width >= 4 && s >= 1;
            lemma_piece_pixels_bounds(t, s);
            lemma_pos_bounds(t, s, w, h);
            assert(s * s >= 1) by (nonlinear_arith)
                requires s >= 1;
        }
        let t2 = Tetromino::new(t.shape, t.position,
            if t.rotation >= 3 { 0 } else { t.rotation + 1 });
        proof {
            assert(t2 == spec_rotated(t));
            lemma_piece_pixels_bounds(t2, s);
        }
        let px2 = t2.pixels(s_exec);
        let ghost pxv2 = pix_view(px2@);
        proof {
            assert(pxv2 == piece_pixels(t2, s));
            assert forall|i: int| 0 <= i < px2@.len() implies {
                let p = #[trigger] px2@[i];
                -0x1000_0000 <= p.0 <= 0x1000_0000 && -0x1000_0000 <= p.1 <= 0x1000_0000
            } by {
                assert(pxv2[i] == (px2@[i].0 as int, px2@[i].1 as int));
                assert(t2.position.0 <= pxv2[i].0 < t2.position.0 + 4 * s);
                assert(t2.position.1 <= pxv2[i].1 < t2.position.1 + 4 * s);
            }
        }
        let ok = self.shift_free_exec(&px2, 0, 0);
        if !ok {
            proof {
                assert forall|i: int| 0 <= i < pxv2.len()
                    implies (#[trigger] pxv2[i]) == (pxv2[i].0 + 0, pxv2[i].1 + 0) by {}
                assert(!shift_free(self@, w, h, piece_pixels(t2, s), 0, 0));
            }
            return;
        }
        let px = t.pixels(s_exec);
        let ghost pxv = pix_view(px@);
        proof {
            assert(pxv == piece_pixels(t, s));
            assert forall|i: int| 0 <= i < px@.len() implies {
                let p = #[trigger] px@[i];
                -0x1000_0000 <= p.0 <= 0x1000_0000 && -0x1000_0000 <= p.1 <= 0x1000_0000
            } by {
                assert(pxv[i] == (px@[i].0 as int, px@[i].1 as int));
                assert(in_bounds(w, h, pxv[i]));
            }
            assert forall|i: int| 0 <= i < pxv2.len()
                implies in_bounds(w, h, #[trigger] pxv2[i]) by {
                assert(in_bounds(w, h, (pxv2[i].0 + 0, pxv2[i].1 + 0)));
            }
        }
        let p0 = px[0];
        proof {
            assert(pxv[0] == (p0.0 as int, p0.1 as int));
            assert(in_bounds(w, h, pxv[0]));
            assert(self@[p0.0 as int][p0.1 as int] == ColourType::NoPhysicsColour(cc));
        }
        let c0 = self.get_cell(p0.0 as usize, p0.1 as usize);
        let code = match c0 {
            ColourType::NoPhysicsColour(code) => code,
            _ => unreached(),
        };
        let ghost g0 = self@;
        self.repaint(&px, &px2, ColourType::NoPhysicsColour(code));
        self.tetromino = Some(t2);
        proof {
            let ps2 = piece_pixels(t2, s);
            assert forall|i: int| 0 <= i < ps2.len() implies {
                let p = #[trigger] ps2[i];
                in_bounds(w, h, p) && self@[p.0][p.1] == ColourType::NoPhysicsColour(cc)
            } by {
                assert(ps2[i] == pxv2[i]);
                assert(in_bounds(w, h, pxv2[i]));
                assert(pxv2.contains(pxv2[i]));
            }
            assert(piece_state_wf(self@, w, h, s, t2, cc));
            lemma_wf_from_parts_piece(self, t2, cc);
        }
    }
}

/// The invariant survives any grid change that leaves falling-piece cells
/// alone: the piece owns exactly the `NoPhysicsColour` cells.
proof fn lemma_wf_nophys_preserved(g0: &Game, g1: &Game)
    requires
        g0.wf(),
        g1.width == g0.width,
        g1.height == g0.height,
        g1.square_pixel_width == g0.square_pixel_width,
        g1.square_width == g0.square_width,
        g1.square_height == g0.square_height,
        g1.board@.len() == g0.board@.len(),
        g1.tetromino == g0.tetromino,
        forall|x: int, y: int| 0 <= x < g0.width && 0 <= y < g0.height
            && (#[trigger] g0@[x][y]) is NoPhysicsColour ==> g1@[x][y] == g0@[x][y],
    ensures
        g1.wf(),
{
    match g0.tetromino {
        None => {
            lemma_wf_from_parts(g1);
        },
        Some(t) => {
            let w = g0.spec_width();
            let h = g0.spec_height();
            let s = g0.spec_spw();
            let cc = choose|cc: ColourCode| piece_state_wf(g0.view(), w, h, s, t, cc);
            assert forall|i: int| 0 <= i < piece_pixels(t, s).len() implies {
                let p = #[trigger] piece_pixels(t, s)[i];
                in_bounds(w, h, p) && g1@[p.0][p.1] == ColourType::NoPhysicsColour(cc)
            } by {
                let p = piece_pixels(t, s)[i];
                assert(g0@[p.0][p.1] == ColourType::NoPhysicsColour(cc));
            }
            assert(piece_state_wf(g1@, w, h, s, t, cc));
            lemma_wf_from_parts_piece(g1, t, cc);
        },
    }
}

/// A vector of `n` cleared flags.
fn bool_vec(n: usize) -> (v: Vec<bool>)
    ensures
        v@.len() == n,
        forall|i: int| 0 <= i < n ==> !(#[trigger] v@[i]),
{
    let mut v: Vec<bool> = Vec::new();
    let mut i: usize = 0;
    while i < n
        invariant
            i <= n,
            v@.len() == i,
            forall|j: int| 0 <= j < i ==> !(#[trigger] v@[j]),
        decreases n - i,
    {
        v.push(false);
        i += 1;
    }
    v
}

/// Every on-board same-colour neighbour of `p` already carries a visited
/// mark (by its flattened board index).
spec fn nbs_done(
    g: Seq<Seq<ColourType>>,
    w: int,
    h: int,
    target: ColourCode,
    vis: Set<int>,
    p: (usize, usize),
) -> bool {
    forall|qq: (int, int)| #[trigger] adjacent((p.0 as int, p.1 as int), qq)
        && in_bounds(w, h, qq) && g[qq.0][qq.1] == ColourType::Colour(target)
        ==> vis.contains(qq.0 * h + qq.1)
}

/// Like `nbs_done`, restricted to the single neighbour in direction `d`
/// (right, left, up, down in that order).
spec fn dir_done(
    g: Seq<Seq<ColourType>>,
    w: int,
    h: int,
    target: ColourCode,
    vis: Set<int>,
    p: (usize, usize),
    d: int,
) -> bool {
    let nb = if d == 0 {
        (p.0 as int + 1, p.1 as int)
    } else if d == 1 {
        (p.0 as int - 1, p.1 as int)
    } else if d == 2 {
        (p.0 as int, p.1 as int + 1)
    } else {
        (p.0 as int, p.1 as int - 1)
    };
    in_bounds(w, h, nb) && g[nb.0][nb.1] == ColourType::Colour(target)
        ==> vis.contains(nb.0 * h + nb.1)
}

proof fn lemma_nbs_done_mono(
    g: Seq<Seq<ColourType>>,
    w: int,
    h: int,
    target: ColourCode,
    vis1: Set<int>,
    vis2: Set<int>,
    p: (usize, usize),
)
    requires
        nbs_done(g, w, h, target, vis1, p),
        forall|f: int| #[trigger] vis1.contains(f) ==> vis2.contains(f),
    ensures
        nbs_done(g, w, h, target, vis2, p),
{
    assert forall|qq: (int, int)| #[trigger] adjacent((p.0 as int, p.1 as int), qq)
        && in_bounds(w, h, qq) && g[qq.0][qq.1] == ColourType::Colour(target)
        implies vis2.contains(qq.0 * h + qq.1) by {
        assert(vis1.contains(qq.0 * h + qq.1));
    }
}

/// A set of visited marks that contains a path's start and is closed under
/// same-colour adjacency contains the path's end.
proof fn lemma_path_visited(
    g: Seq<Seq<ColourType>>,
    w: int,
    h: int,
    target: ColourCode,
    vis: Set<int>,
    path: Seq<(int, int)>,
)
    requires
        is_path(g, w, h, target, path),
        path.len() > 0,
        vis.contains(path[0].0 * h + path[0].1),
        forall|a: (int, int), b: (int, int)|
            #![trigger vis.contains(a.0 * h + a.1), adjacent(a, b)]
            vis.contains(a.0 * h + a.1) && in_bounds(w, h, a) && adjacent(a, b)
                && in_bounds(w, h, b) && g[b.0][b.1] == ColourType::Colour(target)
                ==> vis.contains(b.0 * h + b.1),
    ensures
        vis.contains(path.last().0 * h + path.last().1),
    decreases path.len(),
{
    if path.len() > 1 {
        let prefix = path.take(path.len() - 1);
        assert(is_path(g, w, h, target, prefix)) by {
            assert forall|i: int| 0 <= i < prefix.len()
                implies in_bounds(w, h, #[trigger] prefix[i])
                    && g[prefix[i].0][prefix[i].1] == ColourType::Colour(target) by {
                assert(prefix[i] == path[i]);
            }
            assert forall|i: int| 0 <= i < prefix.len() - 1
                implies adjacent(#[trigger] prefix[i], prefix[i + 1]) by {
                assert(prefix[i] == path[i] && prefix[i + 1] == path[i + 1]);
            }
        }
        assert(prefix[0] == path[0]);
        lemma_path_visited(g, w, h, target, vis, prefix);
        let a = path[path.len() - 2];
        let b = path[path.len() - 1];
        assert(prefix.last() == a);
        assert(adjacent(a, b));
        assert(vis.contains(b.0 * h + b.1));
    }
}

impl Game {

    /// One neighbour step of the component search: if `nb` holds the target
    /// colour and was not yet visited, mark and enqueue it, note a touched
    /// right edge, and record a visited column-0 origin row.
    #[verifier::rlimit(100)]
    fn bfs_try(
        &self,
        Ghost(startp): Ghost<(int, int)>,
        target_colour: ColourCode,
        visited: &mut Vec<bool>,
        q: &mut Vec<(usize, usize)>,
        found: &mut bool,
        origins_visited: &mut Vec<bool>,
        Ghost(vis0): Ghost<Set<int>>,
        cur: (usize, usize),
        nb: (usize, usize),
    ) -> (vis2: Ghost<Set<int>>)
        requires
            self.wf(),
            self.spec_width() >= 2,
            in_bounds(self.spec_width(), self.spec_height(), startp),
            self@[startp.0][startp.1] == ColourType::Colour(target_colour),
            nb.0 < self.spec_width(),
            nb.1 < self.spec_height(),
            adjacent((cur.0 as int, cur.1 as int), (nb.0 as int, nb.1 as int)),
            connected(self@, self.spec_width(), self.spec_height(), target_colour, startp,
                (cur.0 as int, cur.1 as int)),
            old(visited)@.len() == self.spec_width() * self.spec_height(),
            old(origins_visited)@.len() == self.spec_height(),
            vis0.finite(),
            vis0.len() == old(q)@.len(),
            forall|f: int| vis0.contains(f) ==> 0 <= f < self.spec_width() * self.spec_height(),
            forall|f: int| 0 <= f < self.spec_width() * self.spec_height()
                ==> ((#[trigger] old(visited)@[f]) <==> vis0.contains(f)),
            forall|i: int| 0 <= i < old(q)@.len() ==> {
                let p = #[trigger] old(q)@[i];
                &&& (p.0 as int) < self.spec_width()
                &&& (p.1 as int) < self.spec_height()
                &&& self@[p.0 as int][p.1 as int] == ColourType::Colour(target_colour)
                &&& connected(self@, self.spec_width(), self.spec_height(), target_colour,
                    startp, (p.0 as int, p.1 as int))
            },
            *old(found) ==> exists|i: int| 0 <= i < old(q)@.len()
                && (#[trigger] old(q)@[i]).0 == self.spec_width() - 1,
            forall|f: int| #[trigger] vis0.contains(f) ==> exists|i: int|
                0 <= i < old(q)@.len()
                && (#[trigger] old(q)@[i]).0 * self.spec_height() + old(q)@[i].1 == f,
        ensures
            final(visited)@.len() == self.spec_width() * self.spec_height(),
            final(origins_visited)@.len() == self.spec_height(),
            forall|y: int| 0 <= y < self.spec_height() && old(origins_visited)@[y]
                ==> final(origins_visited)@[y],
            vis2@.finite(),
            vis2@.len() == final(q)@.len(),
            final(q)@.len() >= old(q)@.len(),
            forall|f: int| vis2@.contains(f) ==> 0 <= f < self.spec_width() * self.spec_height(),
            forall|f: int| 0 <= f < self.spec_width() * self.spec_height()
                ==> ((#[trigger] final(visited)@[f]) <==> vis2@.contains(f)),
            forall|i: int| 0 <= i < final(q)@.len() ==> {
                let p = #[trigger] final(q)@[i];
                &&& (p.0 as int) < self.spec_width()
                &&& (p.1 as int) < self.spec_height()
                &&& self@[p.0 as int][p.1 as int] == ColourType::Colour(target_colour)
                &&& connected(self@, self.spec_width(), self.spec_height(), target_colour,
                    startp, (p.0 as int, p.1 as int))
            },
            final(q)@.len() <= old(q)@.len() + 1,
            forall|i: int| 0 <= i < old(q)@.len() ==> final(q)@[i] == old(q)@[i],
            final(q)@.len() > old(q)@.len()
                ==> final(q)@[old(q)@.len() as int] == nb,
            forall|f: int| vis0.contains(f) ==> vis2@.contains(f),
            self@[nb.0 as int][nb.1 as int] == ColourType::Colour(target_colour)
                ==> vis2@.contains(nb.0 as int * self.spec_height() + nb.1 as int),
            *final(found) == (*old(found) || (final(q)@.len() > old(q)@.len()
                && nb.0 as int == self.spec_width() - 1)),
            forall|yy: int| 0 <= yy < self.spec_height()
                ==> ((#[trigger] final(origins_visited)@[yy]) <==> (old(origins_visited)@[yy]
                    || (final(q)@.len() > old(q)@.len() && nb.0 == 0 && nb.1 as int == yy))),
            forall|f: int| #[trigger] vis2@.contains(f) ==> exists|i: int|
                0 <= i < final(q)@.len()
                && (#[trigger] final(q)@[i]).0 * self.spec_height() + final(q)@[i].1 == f,
    {
        let w = self.width;
        let h = self.height;
        let ghost mut vis_now: Set<int> = vis0;
        let c = self.get_cell(nb.0, nb.1);
        let hit = match c {
            ColourType::Colour(code) => code == target_colour,
            _ => false,
        };
        if hit {
            let n = visited.len();
            proof {
                lemma_flat_index(w as int, h as int, nb.0 as int, nb.1 as int);
                assert(n == self.spec_width() * self.spec_height());
            }
            let f = nb.0 * h + nb.1;
            if !visited[f] {
                visited.set(f, true);
                proof {
                    assert(!vis_now.contains(f as int));
                    vis_now = vis_now.insert(f as int);
                    lemma_connected_step(self@, w as int, h as int, target_colour,
                        startp, (cur.0 as int, cur.1 as int), (nb.0 as int, nb.1 as int));
                }
                q.push(nb);
                if nb.0 == w - 1 {
                    *found = true;
                    proof {
                        assert(q@[q@.len() - 1] == nb);
                    }
                } else if nb.0 == 0 {
                    origins_visited.set(nb.1, true);
                }
                proof {
                    if *found && !*old(found) {
                        assert(q@[q@.len() - 1].0 == w - 1);
                    }
                }
            }
        }
        proof {
            if *old(found) {
                let i = choose|i: int| 0 <= i < old(q)@.len()
                    && (#[trigger] old(q)@[i]).0 == self.spec_width() - 1;
                assert(q@[i] == old(q)@[i]);
            }
            assert forall|f: int| #[trigger] vis_now.contains(f) implies exists|i: int|
                0 <= i < q@.len()
                && (#[trigger] q@[i]).0 * self.spec_height() + q@[i].1 == f by {
                if vis0.contains(f) {
                    let i = choose|i: int| 0 <= i < old(q)@.len()
                        && (#[trigger] old(q)@[i]).0 * self.spec_height() + old(q)@[i].1 == f;
                    assert(q@[i] == old(q)@[i]);
                } else {
                    assert(q@[q@.len() - 1] == nb);
                    assert(f == nb.0 as int * self.spec_height() + nb.1 as int);
                }
            }
        }
        Ghost(vis_now)
    }

    /// Breadth-first search from the column-0 seed `cell` over 4-connected
    /// settled cells of colour `target_colour`. It visits exactly the seed's
    /// component and reports whether that component reaches the right edge;
    /// the rows of the other column-0 cells it visited are recorded in
    /// `origins_visited` so a later scan does not re-explore the same
    /// component.
    #[verifier::rlimit(100)]
    fn ant(
        &self,
        cell: (usize, usize),
        target_colour: ColourCode,
        origins_visited: &mut Vec<bool>,
    ) -> (r: (bool, Vec<(usize, usize)>))
        requires
            self.wf(),
            cell.0 == 0,
            cell.1 < self.spec_height(),
            self@[cell.0 as int][cell.1 as int] == ColourType::Colour(target_colour),
            old(origins_visited)@.len() == self.spec_height(),
        ensures
            final(origins_visited)@.len() == self.spec_height(),
            forall|yy: int| 0 <= yy < self.spec_height()
                ==> ((#[trigger] final(origins_visited)@[yy]) <==> (old(origins_visited)@[yy]
                    || exists|i: int| 1 <= i < r.1@.len() && (#[trigger] r.1@[i]).0 == 0
                        && r.1@[i].1 as int == yy)),
            forall|i: int| 0 <= i < r.1@.len() ==> {
                let p = #[trigger] r.1@[i];
                &&& (p.0 as int) < self.spec_width()
                &&& (p.1 as int) < self.spec_height()
                &&& self@[p.0 as int][p.1 as int] == ColourType::Colour(target_colour)
                &&& connected(self@, self.spec_width(), self.spec_height(), target_colour,
                    (cell.0 as int, cell.1 as int), (p.0 as int, p.1 as int))
            },
            forall|p: (int, int)| #[trigger] connected(self@, self.spec_width(),
                self.spec_height(), target_colour, (cell.0 as int, cell.1 as int), p)
                ==> exists|i: int| 0 <= i < r.1@.len()
                    && ((#[trigger] r.1@[i]).0 as int, r.1@[i].1 as int) == p,
            r.0 ==> exists|i: int| 0 <= i < r.1@.len()
                && (#[trigger] r.1@[i]).0 == self.spec_width() - 1,
            r.0 == reaches_col(self@, self.spec_width(), self.spec_height(), target_colour,
                (cell.0 as int, cell.1 as int), self.spec_width() - 1),
    {
        let w = self.width;
        let h = self.height;
        proof {
            assert(w * h <= 0xFFFF * 0xFFFF) by (nonlinear_arith)
                requires w <= 0xFFFF && h <= 0xFFFF;
            let sp = self.square_pixel_width as int;
            let sq = self.square_width as int;
            assert(4 <= sp * sq) by (nonlinear_arith)
                requires sp >= 1 && sq >= 4;
        }
        let wh = w * h;
        let ghost startp = (cell.0 as int, cell.1 as int);
        let mut visited = bool_vec(wh);
        let mut q: Vec<(usize, usize)> = Vec::new();
        proof {
            lemma_flat_index(w as int, h as int, cell.0 as int, cell.1 as int);
        }
        let f0 = cell.0 * h + cell.1;
        visited.set(f0, true);
        q.push(cell);
        let ghost mut vis_flat: Set<int> = Set::empty().insert(f0 as int);
        let mut head: usize = 0;
        let mut found = false;
        proof {
            lemma_connected_refl(self@, w as int, h as int, target_colour, startp);
            assert(vis_flat.len() == 1);
            assert forall|f: int| 0 <= f < wh
                implies (visited@[f] <==> vis_flat.contains(f)) by {
                if f != f0 as int {
                    assert(!visited@[f]);
                }
            }
            assert forall|f: int| #[trigger] vis_flat.contains(f) implies exists|i: int|
                0 <= i < q@.len() && (#[trigger] q@[i]).0 * h + q@[i].1 == f by {
                assert(f == f0 as int);
                assert(q@[0].0 * h + q@[0].1 == f);
            }
        }
        while head < q.len()
            invariant
                self.wf(),
                w == self.spec_width(),
                h == self.spec_height(),
                2 <= w,
                wh == w * h,
                cell.0 == 0,
                cell.1 < h,
                startp == (cell.0 as int, cell.1 as int),
                self@[startp.0][startp.1] == ColourType::Colour(target_colour),
                visited@.len() == wh,
                origins_visited@.len() == h,
                head <= q@.len(),
                q@.len() >= 1,
                q@[0] == cell,
                vis_flat.finite(),
                vis_flat.len() == q@.len(),
                vis_flat.contains(f0 as int),
                forall|f: int| vis_flat.contains(f) ==> 0 <= f < wh,
                forall|f: int| 0 <= f < wh ==> ((#[trigger] visited@[f]) <==> vis_flat.contains(f)),
                forall|f: int| #[trigger] vis_flat.contains(f) ==> exists|i: int|
                    0 <= i < q@.len() && (#[trigger] q@[i]).0 * h + q@[i].1 == f,
                forall|i: int| 0 <= i < q@.len() ==> {
                    let p = #[trigger] q@[i];
                    &&& (p.0 as int) < w
                    &&& (p.1 as int) < h
                    &&& self@[p.0 as int][p.1 as int] == ColourType::Colour(target_colour)
                    &&& connected(self@, w as int, h as int, target_colour, startp,
                        (p.0 as int, p.1 as int))
                },
                found <==> exists|i: int| 0 <= i < q@.len()
                    && (#[trigger] q@[i]).0 == w - 1,
                forall|yy: int| 0 <= yy < h
                    ==> ((#[trigger] origins_visited@[yy]) <==> (old(origins_visited)@[yy]
                        || exists|i: int| 1 <= i < q@.len() && (#[trigger] q@[i]).0 == 0
                            && q@[i].1 as int == yy)),
                forall|k: int| 0 <= k < head ==> nbs_done(self@, w as int, h as int,
                    target_colour, vis_flat, #[trigger] q@[k]),
            decreases wh - head,
        {
            proof {
                vstd::set_lib::lemma_int_range(0, wh as int);
                vstd::set_lib::lemma_len_subset(vis_flat, vstd::set_lib::set_int_range(0, wh as int));
                assert(vis_flat.subset_of(vstd::set_lib::set_int_range(0, wh as int)));
                assert(q@.len() <= wh);
            }
            let cur = q[head];
            head += 1;
            let ghost curp = (cur.0 as int, cur.1 as int);
            let mut d: usize = 0;
            while d < 4
                invariant
                    self.wf(),
                    w == self.spec_width(),
                    h == self.spec_height(),
                    2 <= w,
                    wh == w * h,
                    cell.0 == 0,
                    cell.1 < h,
                    startp == (cell.0 as int, cell.1 as int),
                    self@[startp.0][startp.1] == ColourType::Colour(target_colour),
                    visited@.len() == wh,
                    origins_visited@.len() == h,
                    1 <= head <= q@.len(),
                    q@[0] == cell,
                    q@[head - 1] == cur,
                    curp == (cur.0 as int, cur.1 as int),
                    cur.0 < w,
                    cur.1 < h,
                    self@[curp.0][curp.1] == ColourType::Colour(target_colour),
                    connected(self@, w as int, h as int, target_colour, startp, curp),
                    vis_flat.finite(),
                    vis_flat.len() == q@.len(),
                    vis_flat.contains(f0 as int),
                    forall|f: int| vis_flat.contains(f) ==> 0 <= f < wh,
                    forall|f: int| 0 <= f < wh
                        ==> ((#[trigger] visited@[f]) <==> vis_flat.contains(f)),
                    forall|f: int| #[trigger] vis_flat.contains(f) ==> exists|i: int|
                        0 <= i < q@.len() && (#[trigger] q@[i]).0 * h + q@[i].1 == f,
                    forall|i: int| 0 <= i < q@.len() ==> {
                        let p = #[trigger] q@[i];
                        &&& (p.0 as int) < w
                        &&& (p.1 as int) < h
                        &&& self@[p.0 as int][p.1 as int] == ColourType::Colour(target_colour)
                        &&& connected(self@, w as int, h as int, target_colour, startp,
                            (p.0 as int, p.1 as int))
                    },
                    found <==> exists|i: int| 0 <= i < q@.len()
                        && (#[trigger] q@[i]).0 == w - 1,
                    forall|yy: int| 0 <= yy < h
                        ==> ((#[trigger] origins_visited@[yy]) <==> (old(origins_visited)@[yy]
                            || exists|i: int| 1 <= i < q@.len() && (#[trigger] q@[i]).0 == 0
                                && q@[i].1 as int == yy)),
                    forall|k: int| 0 <= k < head - 1 ==> nbs_done(self@, w as int, h as int,
                        target_colour, vis_flat, #[trigger] q@[k]),
                    d <= 4,
                    forall|dd: int| 0 <= dd < d ==> #[trigger] dir_done(self@, w as int,
                        h as int, target_colour, vis_flat, cur, dd),
                decreases 4 - d,
            {
                let nb_opt: Option<(usize, usize)> = if d == 0 {
                    if cur.0 + 1 < w { Some((cur.0 + 1, cur.1)) } else { None }
                } else if d == 1 {
                    if cur.0 > 0 { Some((cur.0 - 1, cur.1)) } else { None }
                } else if d == 2 {
                    if cur.1 + 1 < h { Some((cur.0, cur.1 + 1)) } else { None }
                } else {
                    if cur.1 > 0 { Some((cur.0, cur.1 - 1)) } else { None }
                };
                let ghost vis_before = vis_flat;
                if let Some(nb) = nb_opt {
                    let gv = self.bfs_try(Ghost(startp), target_colour, &mut visited,
                        &mut q, &mut found, origins_visited, Ghost(vis_flat), cur, nb);
                    proof {
                        vis_flat = gv@;
                    }
                }
                proof {
                    assert(dir_done(self@, w as int, h as int, target_colour, vis_flat,
                        cur, d as int));
                    assert forall|dd: int| 0 <= dd < d + 1 implies #[trigger] dir_done(
                        self@, w as int, h as int, target_colour, vis_flat, cur, dd) by {
                        if dd < d {
                            assert(dir_done(self@, w as int, h as int, target_colour,
                                vis_before, cur, dd));
                        }
                    }
                    assert forall|k: int| 0 <= k < head - 1 implies nbs_done(self@,
                        w as int, h as int, target_colour, vis_flat, #[trigger] q@[k]) by {
                        lemma_nbs_done_mono(self@, w as int, h as int, target_colour,
                            vis_before, vis_flat, q@[k]);
                    }
                }
                d += 1;
            }
            proof {
                assert forall|k: int| 0 <= k < head implies nbs_done(self@, w as int,
                    h as int, target_colour, vis_flat, #[trigger] q@[k]) by {
                    if k == head - 1 {
                        assert forall|qq: (int, int)| #[trigger] adjacent(curp, qq)
                            && in_bounds(w as int, h as int, qq)
                            && self@[qq.0][qq.1] == ColourType::Colour(target_colour)
                            implies vis_flat.contains(qq.0 * h + qq.1) by {
                            if qq == (curp.0 + 1, curp.1) {
                                assert(dir_done(self@, w as int, h as int, target_colour,
                                    vis_flat, cur, 0));
                            } else if qq == (curp.0 - 1, curp.1) {
                                assert(dir_done(self@, w as int, h as int, target_colour,
                                    vis_flat, cur, 1));
                            } else if qq == (curp.0, curp.1 + 1) {
                                assert(dir_done(self@, w as int, h as int, target_colour,
                                    vis_flat, cur, 2));
                            } else {
                                assert(qq == (curp.0, curp.1 - 1));
                                assert(dir_done(self@, w as int, h as int, target_colour,
                                    vis_flat, cur, 3));
                            }
                        }
                    }
                }
            }
        }
        proof {
            // the visited set is closed under same-colour adjacency, so every
            // cell of the seed's component has been enqueued
            assert forall|p: (int, int)| #[trigger] connected(self@, w as int, h as int,
                target_colour, startp, p) implies exists|i: int| 0 <= i < q@.len()
                && ((#[trigger] q@[i]).0 as int, q@[i].1 as int) == p by {
                let path = choose|path: Seq<(int, int)>| #![auto]
                    is_path(self@, w as int, h as int, target_colour, path)
                    && path.len() > 0 && path.first() == startp && path.last() == p;
                assert(path[0].0 * h + path[0].1 == f0 as int);
                assert forall|a: (int, int), b: (int, int)|
                    #![trigger vis_flat.contains(a.0 * (h as int) + a.1), adjacent(a, b)]
                    vis_flat.contains(a.0 * (h as int) + a.1)
                    && in_bounds(w as int, h as int, a) && adjacent(a, b)
                    && in_bounds(w as int, h as int, b)
                    && self@[b.0][b.1] == ColourType::Colour(target_colour)
                    implies vis_flat.contains(b.0 * (h as int) + b.1) by {
                    let i = choose|i: int| 0 <= i < q@.len()
                        && (#[trigger] q@[i]).0 * h + q@[i].1 == a.0 * (h as int) + a.1;
                    lemma_flat_index_injective(h as int, q@[i].0 as int, q@[i].1 as int,
                        a.0, a.1);
                    assert((q@[i].0 as int, q@[i].1 as int) == a);
                    assert(nbs_done(self@, w as int, h as int, target_colour, vis_flat,
                        q@[i]));
                }
                lemma_path_visited(self@, w as int, h as int, target_colour, vis_flat,
                    path);
                let i = choose|i: int| 0 <= i < q@.len()
                    && (#[trigger] q@[i]).0 * h + q@[i].1 == p.0 * (h as int) + p.1;
                lemma_flat_index_injective(h as int, q@[i].0 as int, q@[i].1 as int,
                    p.0, p.1);
            }
            // found coincides with the component touching the right edge
            if found {
                let i = choose|i: int| 0 <= i < q@.len()
                    && (#[trigger] q@[i]).0 == w - 1;
                assert(reaches_col(self@, w as int, h as int, target_colour, startp,
                    w as int - 1)) by {
                    assert(connected(self@, w as int, h as int, target_colour, startp,
                        (q@[i].0 as int, q@[i].1 as int)));
                }
            }
            if reaches_col(self@, w as int, h as int, target_colour, startp, w as int - 1) {
                let p = choose|p: (int, int)| #![auto] p.0 == w as int - 1
                    && connected(self@, w as int, h as int, target_colour, startp, p);
                assert(connected(self@, w as int, h as int, target_colour, startp, p));
                let i = choose|i: int| 0 <= i < q@.len()
                    && ((#[trigger] q@[i]).0 as int, q@[i].1 as int) == p;
                assert(q@[i].0 == w - 1);
            }
        }
        (found, q)
    }

    /// One connectivity scan: for each row whose column-0 cell is a settled
    /// particle not already known to an explored component, search its
    /// component; if the component touches the right edge, every cell of it
    /// starts a deletion countdown of 40 ticks. Exactly the settled cells on
    /// components touching both edges are cleared.
    #[verifier::rlimit(100)]
    pub fn scan_connectivity(&mut self)
        requires
            old(self).wf(),
        ensures
            final(self).wf(),
            final(self).spec_width() == old(self).spec_width(),
            final(self).spec_height() == old(self).spec_height(),
            final(self).spec_spw() == old(self).spec_spw(),
            final(self).spec_piece() == old(self).spec_piece(),
            final(self).spec_time_since_last() == old(self).spec_time_since_last(),
            scan_rel(old(self)@, final(self)@, old(self).spec_width(),
                old(self).spec_height()),
    {
        let ghost g0 = self@;
        let ghost w = self.spec_width();
        let ghost h = self.spec_height();
        proof {
            let sp = self.square_pixel_width as int;
            let sq = self.square_width as int;
            assert(4 <= sp * sq) by (nonlinear_arith)
                requires sp >= 1 && sq >= 4;
        }
        let hh = self.height;
        let mut origins_visited = bool_vec(hh);
        let mut y: usize = 0;
        while y < hh
            invariant
                old(self).wf(),
                self.wf(),
                4 <= w,
                self.spec_width() == w,
                self.spec_height() == h,
                hh == h,
                self.spec_spw() == old(self).spec_spw(),
                self.spec_piece() == old(self).spec_piece(),
                self.spec_time_since_last() == old(self).spec_time_since_last(),
                self.square_width == old(self).square_width,
                self.square_height == old(self).square_height,
                self.board@.len() == old(self).board@.len(),
                self.width == old(self).width,
                self.height == old(self).height,
                self.square_pixel_width == old(self).square_pixel_width,
                self.tetromino == old(self).tetromino,
                g0 == old(self)@,
                origins_visited@.len() == h,
                y <= hh,
                scan_inv_board(g0, self@, w, h, y as int),
                scan_inv_origins(g0, w, h, origins_visited@, y as int),
                forall|x2: int, y2: int| 0 <= x2 < w && 0 <= y2 < h
                    && (#[trigger] g0[x2][y2]) is NoPhysicsColour ==> self@[x2][y2] == g0[x2][y2],
            decreases hh - y,
        {
            let ghost g1 = self@;
            let c0 = self.get_cell(0, y);
            let code_opt = match c0 {
                ColourType::Colour(code) => Some(code),
                _ => None,
            };
            let mut scanned = false;
            if let Some(code) = code_opt {
                if !origins_visited[y] {
                    scanned = true;
                    proof {
                        assert(g1[0][y as int] == ColourType::Colour(code));
                        // a still-settled seed cell is untouched since the scan began
                        assert(g0[0][y as int] == ColourType::Colour(code));
                    }
                    let ghost origins_pre = origins_visited@;
                    let (found, visited_cells) = self.ant((0, y), code, &mut origins_visited);
                    proof {
                        lemma_scan_component_transfer(g0, g1, w, h, y as int, code);
                    }
                    if found {
                        let mut i: usize = 0;
                        while i < visited_cells.len()
                            invariant
                                old(self).wf(),
                                4 <= w,
                                self.spec_width() == w,
                                self.spec_height() == h,
                                self.spec_spw() == old(self).spec_spw(),
                                self.spec_piece() == old(self).spec_piece(),
                                self.spec_time_since_last()
                                    == old(self).spec_time_since_last(),
                                self.square_width == old(self).square_width,
                                self.square_height == old(self).square_height,
                                self.board@.len() == old(self).board@.len(),
                                self.board@.len() == self.spec_width() * self.spec_height(),
                                self.width == old(self).width,
                                self.height == old(self).height,
                                self.square_pixel_width == old(self).square_pixel_width,
                                self.tetromino == old(self).tetromino,
                                g0 == old(self)@,
                                i <= visited_cells@.len(),
                                (y as int) < h,
                                g1[0][y as int] == ColourType::Colour(code),
                                forall|k: int| 0 <= k < visited_cells@.len() ==> {
                                    let p = #[trigger] visited_cells@[k];
                                    &&& (p.0 as int) < w
                                    &&& (p.1 as int) < h
                                    &&& g1[p.0 as int][p.1 as int]
                                        == ColourType::Colour(code)
                                    &&& connected(g1, w, h, code, (0, y as int),
                                        (p.0 as int, p.1 as int))
                                },
                                forall|x2: int, y2: int| 0 <= x2 < w && 0 <= y2 < h
                                    ==> (#[trigger] self@[x2][y2])
                                        == if in_cells_upto(visited_cells@, i as int,
                                            (x2, y2)) {
                                            ColourType::Deleting(code, 40)
                                        } else {
                                            g1[x2][y2]
                                        },
                                forall|x2: int, y2: int| 0 <= x2 < w && 0 <= y2 < h
                                    && (#[trigger] g0[x2][y2]) is NoPhysicsColour
                                    ==> self@[x2][y2] == g0[x2][y2],
                            decreases visited_cells@.len() - i,
                        {
                            let p = visited_cells[i];
                            let ghost pp = (p.0 as int, p.1 as int);
                            let ghost gprev = self@;
                            let mut cellv = self.cell_at(p.0, p.1);
                            proof {
                                if !in_cells_upto(visited_cells@, i as int, pp) {
                                    assert(cellv == g1[pp.0][pp.1]);
                                }
                            }
                            cellv.set_deleting(40);
                            self.set_cell_raw(p.0, p.1, cellv);
                            proof {
                                assert forall|x2: int, y2: int| 0 <= x2 < w && 0 <= y2 < h
                                    implies (#[trigger] self@[x2][y2])
                                        == if in_cells_upto(visited_cells@, i + 1,
                                            (x2, y2)) {
                                            ColourType::Deleting(code, 40)
                                        } else {
                                            g1[x2][y2]
                                        } by {
                                    lemma_in_cells_upto_step(visited_cells@, i as int,
                                        (x2, y2));
                                    if x2 == pp.0 && y2 == pp.1 {
                                        assert(self@[x2][y2] == ColourType::Deleting(code, 40));
                                    } else {
                                        assert(self@[x2][y2] == gprev[x2][y2]);
                                    }
                                }
                                assert forall|x2: int, y2: int| 0 <= x2 < w && 0 <= y2 < h
                                    && (#[trigger] g0[x2][y2]) is NoPhysicsColour
                                    implies self@[x2][y2] == g0[x2][y2] by {
                                    if in_cells_upto(visited_cells@, i + 1, (x2, y2)) {
                                        let k = choose|k: int| 0 <= k < i + 1
                                            && ((#[trigger] visited_cells@[k]).0 as int,
                                                visited_cells@[k].1 as int) == (x2, y2);
                                        assert(g1[x2][y2] == ColourType::Colour(code));
                                    }
                                }
                            }
                            i += 1;
                        }
                        proof {
                            assert(in_cells_upto(visited_cells@,
                                visited_cells@.len() as int, (0, y as int))) by {
                                lemma_connected_refl(g1, w, h, code, (0, y as int));
                                let k = choose|k: int| 0 <= k < visited_cells@.len()
                                    && ((#[trigger] visited_cells@[k]).0 as int,
                                        visited_cells@[k].1 as int) == (0int, y as int);
                            }
                            lemma_scan_inv_advance_cleared(g0, g1, self@, w, h, y as int,
                                code, visited_cells@);
                            lemma_wf_nophys_preserved(old(self), self);
                        }
                    } else {
                        proof {
                            // the seed's component misses the right edge, so
                            // nothing new is owed at this row
                            assert(!reaches_col(g1, w, h, code, (0, y as int), w - 1));
                            lemma_scan_inv_advance_unchanged(g0, self@, w, h, y as int);
                        }
                    }
                    proof {
                        // newly recorded origin rows all lie on this component
                        assert forall|r: int| 0 <= r < h && #[trigger] origins_visited@[r]
                            implies {
                            let cc = spec_cell_code(g0[0][r]);
                            g0[0][r] == ColourType::Colour(cc)
                                && origin_before(g0, w, h, cc, (0, r), y as int + 1)
                        } by {
                            let cc = spec_cell_code(g0[0][r]);
                            if origins_pre[r] {
                                assert(g0[0][r] == ColourType::Colour(cc)
                                    && origin_before(g0, w, h, cc, (0, r), y as int));
                                let r0 = choose|r0: int| #![auto] 0 <= r0 < y as int
                                    && connected(g0, w, h, cc, (0, r), (0, r0));
                                assert(0 <= r0 < y as int + 1);
                            } else {
                                let k = choose|k: int| 1 <= k < visited_cells@.len()
                                    && (#[trigger] visited_cells@[k]).0 == 0
                                    && visited_cells@[k].1 as int == r;
                                assert(g1[0][r] == ColourType::Colour(code));
                                assert(g0[0][r] == ColourType::Colour(code));
                                assert(connected(g1, w, h, code, (0, y as int), (0, r)));
                                assert(connected(g0, w, h, code, (0, y as int), (0, r)));
                                lemma_connected_sym(g0, w, h, code, (0, y as int), (0, r));
                                assert(0 <= (y as int) && (y as int) < (y as int) + 1);
                            }
                        }
                    }
                }
            }
            if !scanned {
                proof {
                    // no work owed at this row: either the column-0 cell is
                    // not settled (any settled spanning seed here would
                    // already be counting down), or its component is already
                    // recorded as explored
                    let cc0 = spec_cell_code(g0[0][y as int]);
                    if g0[0][y as int] == ColourType::Colour(cc0) {
                        if g1[0][y as int] == g0[0][y as int] {
                            // the seed is still settled, so the row was
                            // skipped because its origin is already known
                            assert(origins_visited@[y as int]);
                            assert(origin_before(g0, w, h, cc0, (0, y as int), y as int));
                        } else {
                            assert(cleared_scan(g0, w, h, (0, y as int), y as int));
                        }
                    }
                    lemma_scan_inv_advance_unchanged(g0, self@, w, h, y as int);
                    assert forall|r: int| 0 <= r < h && #[trigger] origins_visited@[r]
                        implies {
                        let cc = spec_cell_code(g0[0][r]);
                        g0[0][r] == ColourType::Colour(cc)
                            && origin_before(g0, w, h, cc, (0, r), y as int + 1)
                    } by {
                        let cc = spec_cell_code(g0[0][r]);
                        let r0 = choose|r0: int| #![auto] 0 <= r0 < y as int
                            && connected(g0, w, h, cc, (0, r), (0, r0));
                        assert(0 <= r0 < y as int + 1);
                    }
                }
            }
            y += 1;
        }
        proof {
            lemma_scan_inv_implies_scan_rel(g0, self@, w, h);
        }
    }
}


/// The cells a connectivity scan has cleared once every row below `yb` has
/// been visited: settled particles whose component reaches the right edge
/// and touches column 0 somewhere below `yb`.
spec fn cleared_scan(g: Seq<Seq<ColourType>>, w: int, h: int, p: (int, int), yb: int) -> bool {
    let cc = spec_cell_code(g[p.0][p.1]);
    &&& g[p.0][p.1] == ColourType::Colour(cc)
    &&& reaches_col(g, w, h, cc, p, w - 1)
    &&& origin_before(g, w, h, cc, p, yb)
}

/// Mid-scan grid shape: exactly the cells already owed a clearing are
/// counting down; everything else is untouched.
spec fn scan_inv_board(
    g0: Seq<Seq<ColourType>>,
    cur: Seq<Seq<ColourType>>,
    w: int,
    h: int,
    yb: int,
) -> bool {
    forall|x: int, y: int| 0 <= x < w && 0 <= y < h
        ==> (#[trigger] cur[x][y]) == if cleared_scan(g0, w, h, (x, y), yb) {
            ColourType::Deleting(spec_cell_code(g0[x][y]), 40)
        } else {
            g0[x][y]
        }
}

/// Mid-scan origin bookkeeping: a recorded row holds a settled column-0 cell
/// whose component was already seeded below `yb`.
spec fn scan_inv_origins(
    g0: Seq<Seq<ColourType>>,
    w: int,
    h: int,
    origins: Seq<bool>,
    yb: int,
) -> bool {
    forall|r: int| 0 <= r < h && #[trigger] origins[r] ==> {
        let cc = spec_cell_code(g0[0][r]);
        g0[0][r] == ColourType::Colour(cc) && origin_before(g0, w, h, cc, (0, r), yb)
    }
}

/// Membership of a cell among the first `n` entries of a cell list.
spec fn in_cells_upto(q: Seq<(usize, usize)>, n: int, p: (int, int)) -> bool {
    exists|k: int| 0 <= k < n && ((#[trigger] q[k]).0 as int, q[k].1 as int) == p
}

proof fn lemma_in_cells_upto_step(q: Seq<(usize, usize)>, i: int, p: (int, int))
    requires
        0 <= i < q.len(),
    ensures
        in_cells_upto(q, i + 1, p)
            <==> (in_cells_upto(q, i, p) || (q[i].0 as int, q[i].1 as int) == p),
{
    if in_cells_upto(q, i, p) {
        let k = choose|k: int| 0 <= k < i && ((#[trigger] q[k]).0 as int, q[k].1 as int) == p;
        assert(0 <= k < i + 1);
    }
    if (q[i].0 as int, q[i].1 as int) == p {
        assert(0 <= i < i + 1 && ((q[i]).0 as int, q[i].1 as int) == p);
    }
    if in_cells_upto(q, i + 1, p) {
        let k = choose|k: int| 0 <= k < i + 1
            && ((#[trigger] q[k]).0 as int, q[k].1 as int) == p;
        if k < i {
            assert(in_cells_upto(q, i, p));
        }
    }
}

/// While the seed of row `y` is still settled, no cell of its component has
/// been cleared, so the component reads the same on the pre-scan grid and
/// the current one.
proof fn lemma_scan_component_transfer(
    g0: Seq<Seq<ColourType>>,
    g1: Seq<Seq<ColourType>>,
    w: int,
    h: int,
    y: int,
    code: ColourCode,
)
    requires
        scan_inv_board(g0, g1, w, h, y),
        0 <= y < h,
        g0[0][y] == ColourType::Colour(code),
        g1[0][y] == ColourType::Colour(code),
    ensures
        forall|p: (int, int)| #[trigger] connected(g0, w, h, code, (0, y), p)
            ==> connected(g1, w, h, code, (0, y), p),
        forall|p: (int, int)| #[trigger] connected(g1, w, h, code, (0, y), p)
            ==> connected(g0, w, h, code, (0, y), p),
        reaches_col(g1, w, h, code, (0, y), w - 1)
            == reaches_col(g0, w, h, code, (0, y), w - 1),
{
    let start = (0int, y);
    assert(spec_cell_code(g0[0][y]) == code);
    assert(!cleared_scan(g0, w, h, start, y));
    assert forall|c: (int, int)| in_bounds(w, h, c)
        && #[trigger] connected(g0, w, h, code, start, c)
        implies g1[c.0][c.1] == g0[c.0][c.1] by {
        if cleared_scan(g0, w, h, c, y) {
            let path = choose|path: Seq<(int, int)>| #![auto]
                is_path(g0, w, h, code, path) && path.len() > 0 && path.first() == start
                && path.last() == c;
            assert(g0[c.0][c.1] == ColourType::Colour(code));
            assert(spec_cell_code(g0[c.0][c.1]) == code);
            // pull the clearing back to the still-settled seed
            let p0 = choose|p0: (int, int)| #![auto] p0.0 == w - 1
                && connected(g0, w, h, code, c, p0);
            lemma_connected_trans(g0, w, h, code, start, c, p0);
            assert(reaches_col(g0, w, h, code, start, w - 1));
            let r0 = choose|r0: int| #![auto] 0 <= r0 < y
                && connected(g0, w, h, code, c, (0, r0));
            lemma_connected_trans(g0, w, h, code, start, c, (0, r0));
            assert(origin_before(g0, w, h, code, start, y));
            assert(cleared_scan(g0, w, h, start, y));
        }
    }
    assert forall|p: (int, int)| #[trigger] connected(g0, w, h, code, (0, y), p)
        implies connected(g1, w, h, code, (0, y), p) by {
        lemma_component_unchanged(g0, g1, w, h, code, start, p);
    }
    assert forall|p: (int, int)| #[trigger] connected(g1, w, h, code, (0, y), p)
        implies connected(g0, w, h, code, (0, y), p) by {
        assert forall|x: int, yy: int| 0 <= x < w && 0 <= yy < h
            && #[trigger] g1[x][yy] == ColourType::Colour(code)
            implies g0[x][yy] == ColourType::Colour(code) by {}
        lemma_connected_mono(g0, g1, w, h, code, (0, y), p);
    }
    if reaches_col(g1, w, h, code, start, w - 1) {
        let p0 = choose|p0: (int, int)| #![auto] p0.0 == w - 1
            && connected(g1, w, h, code, start, p0);
        assert(connected(g0, w, h, code, start, p0));
    }
    if reaches_col(g0, w, h, code, start, w - 1) {
        let p0 = choose|p0: (int, int)| #![auto] p0.0 == w - 1
            && connected(g0, w, h, code, start, p0);
        assert(connected(g1, w, h, code, start, p0));
    }
}

/// Advancing past a row that owes no clearing: if a settled spanning seed
/// sat at this row's origin, its component would already be counting down.
proof fn lemma_scan_inv_advance_unchanged(
    g0: Seq<Seq<ColourType>>,
    g1: Seq<Seq<ColourType>>,
    w: int,
    h: int,
    y: int,
)
    requires
        scan_inv_board(g0, g1, w, h, y),
        0 <= y < h,
        ({
            let cc0 = spec_cell_code(g0[0][y]);
            (g0[0][y] == ColourType::Colour(cc0)
                && reaches_col(g0, w, h, cc0, (0, y), w - 1))
                ==> origin_before(g0, w, h, cc0, (0, y), y)
        }),
    ensures
        scan_inv_board(g0, g1, w, h, y + 1),
{
    assert forall|x: int, yy: int| 0 <= x < w && 0 <= yy < h
        implies (#[trigger] g1[x][yy]) == if cleared_scan(g0, w, h, (x, yy), y + 1) {
            ColourType::Deleting(spec_cell_code(g0[x][yy]), 40)
        } else {
            g0[x][yy]
        } by {
        let p = (x, yy);
        let cc = spec_cell_code(g0[x][yy]);
        if cleared_scan(g0, w, h, p, y + 1) && !cleared_scan(g0, w, h, p, y) {
            // the only new origin row is y itself
            let r = choose|r: int| #![auto] 0 <= r < y + 1
                && connected(g0, w, h, cc, p, (0, r));
            assert(r == y);
            assert(g0[0][y] == ColourType::Colour(cc)) by {
                let path = choose|path: Seq<(int, int)>| #![auto]
                    is_path(g0, w, h, cc, path) && path.len() > 0 && path.first() == p
                    && path.last() == (0int, y);
                assert(g0[path.last().0][path.last().1] == ColourType::Colour(cc));
            }
            assert(spec_cell_code(g0[0][y]) == cc);
            // the seed also spans, so by hypothesis it has an earlier origin
            lemma_connected_sym(g0, w, h, cc, p, (0, y));
            let p0 = choose|p0: (int, int)| #![auto] p0.0 == w - 1
                && connected(g0, w, h, cc, p, p0);
            lemma_connected_trans(g0, w, h, cc, (0, y), p, p0);
            assert(reaches_col(g0, w, h, cc, (0, y), w - 1));
            let r0 = choose|r0: int| #![auto] 0 <= r0 < y
                && connected(g0, w, h, cc, (0, y), (0, r0));
            lemma_connected_trans(g0, w, h, cc, p, (0, y), (0, r0));
            assert(origin_before(g0, w, h, cc, p, y));
        }
        if cleared_scan(g0, w, h, p, y) {
            let r = choose|r: int| #![auto] 0 <= r < y
                && connected(g0, w, h, cc, p, (0, r));
            assert(0 <= r < y + 1);
            assert(cleared_scan(g0, w, h, p, y + 1));
        }
    }
}

/// Advancing past a row whose component spans the board: clearing the whole
/// component is exactly what the scan owes up to the next row.
proof fn lemma_scan_inv_advance_cleared(
    g0: Seq<Seq<ColourType>>,
    g1: Seq<Seq<ColourType>>,
    g2: Seq<Seq<ColourType>>,
    w: int,
    h: int,
    y: int,
    code: ColourCode,
    qs: Seq<(usize, usize)>,
)
    requires
        scan_inv_board(g0, g1, w, h, y),
        0 <= y < h,
        g0[0][y] == ColourType::Colour(code),
        g1[0][y] == ColourType::Colour(code),
        forall|i: int| 0 <= i < qs.len() ==> {
            let p = #[trigger] qs[i];
            &&& (p.0 as int) < w
            &&& (p.1 as int) < h
            &&& g1[p.0 as int][p.1 as int] == ColourType::Colour(code)
            &&& connected(g1, w, h, code, (0, y), (p.0 as int, p.1 as int))
        },
        forall|p: (int, int)| #[trigger] connected(g1, w, h, code, (0, y), p)
            ==> exists|i: int| 0 <= i < qs.len()
                && ((#[trigger] qs[i]).0 as int, qs[i].1 as int) == p,
        reaches_col(g1, w, h, code, (0, y), w - 1),
        forall|x: int, yy: int| 0 <= x < w && 0 <= yy < h
            ==> (#[trigger] g2[x][yy]) == if in_cells_upto(qs, qs.len() as int, (x, yy)) {
                ColourType::Deleting(code, 40)
            } else {
                g1[x][yy]
            },
    ensures
        scan_inv_board(g0, g2, w, h, y + 1),
{
    let start = (0int, y);
    lemma_scan_component_transfer(g0, g1, w, h, y, code);
    assert(reaches_col(g0, w, h, code, start, w - 1));
    assert(spec_cell_code(g0[0][y]) == code);
    assert(!cleared_scan(g0, w, h, start, y));
    assert forall|x: int, yy: int| 0 <= x < w && 0 <= yy < h
        implies (#[trigger] g2[x][yy]) == if cleared_scan(g0, w, h, (x, yy), y + 1) {
            ColourType::Deleting(spec_cell_code(g0[x][yy]), 40)
        } else {
            g0[x][yy]
        } by {
        let p = (x, yy);
        let cc = spec_cell_code(g0[x][yy]);
        if in_cells_upto(qs, qs.len() as int, p) {
            // a component cell: it is owed a clearing via this row's origin
            let k = choose|k: int| 0 <= k < qs.len()
                && ((#[trigger] qs[k]).0 as int, qs[k].1 as int) == p;
            assert(connected(g1, w, h, code, start, p));
            assert(connected(g0, w, h, code, start, p));
            assert(g0[p.0][p.1] == ColourType::Colour(code)) by {
                let path = choose|path: Seq<(int, int)>| #![auto]
                    is_path(g0, w, h, code, path) && path.len() > 0
                    && path.first() == start && path.last() == p;
                assert(g0[path.last().0][path.last().1] == ColourType::Colour(code));
            }
            assert(cc == code);
            lemma_connected_sym(g0, w, h, code, start, p);
            let p0 = choose|p0: (int, int)| #![auto] p0.0 == w - 1
                && connected(g0, w, h, code, start, p0);
            lemma_connected_trans(g0, w, h, code, p, start, p0);
            assert(reaches_col(g0, w, h, code, p, w - 1));
            assert(0 <= y < y + 1 && connected(g0, w, h, code, p, (0, y)));
            assert(origin_before(g0, w, h, code, p, y + 1));
            assert(cleared_scan(g0, w, h, p, y + 1));
            assert(g2[x][yy] == ColourType::Deleting(code, 40));
        } else {
            assert(g2[x][yy] == g1[x][yy]);
            if cleared_scan(g0, w, h, p, y + 1) {
                let r = choose|r: int| #![auto] 0 <= r < y + 1
                    && connected(g0, w, h, cc, p, (0, r));
                if r == y {
                    // p would lie on this very component, yet it was not
                    // among the search's cells: impossible
                    assert(g0[0][y] == ColourType::Colour(cc)) by {
                        let path = choose|path: Seq<(int, int)>| #![auto]
                            is_path(g0, w, h, cc, path) && path.len() > 0
                            && path.first() == p && path.last() == (0int, y);
                        assert(g0[path.last().0][path.last().1]
                            == ColourType::Colour(cc));
                    }
                    assert(cc == code);
                    lemma_connected_sym(g0, w, h, code, p, start);
                    assert(connected(g1, w, h, code, start, p));
                    assert(in_cells_upto(qs, qs.len() as int, p));
                } else {
                    assert(origin_before(g0, w, h, cc, p, y));
                    assert(cleared_scan(g0, w, h, p, y));
                }
            } else {
                if cleared_scan(g0, w, h, p, y) {
                    let r = choose|r: int| #![auto] 0 <= r < y
                        && connected(g0, w, h, cc, p, (0, r));
                    assert(0 <= r < y + 1);
                    assert(cleared_scan(g0, w, h, p, y + 1));
                }
                assert(g1[x][yy] == g0[x][yy]);
            }
        }
    }
}

/// The finished scan invariant is the scan relation: every cleared cell was
/// owed a clearing, and every cell owed one was cleared.
proof fn lemma_scan_inv_implies_scan_rel(
    g0: Seq<Seq<ColourType>>,
    g2: Seq<Seq<ColourType>>,
    w: int,
    h: int,
)
    requires
        scan_inv_board(g0, g2, w, h, h),
    ensures
        scan_rel(g0, g2, w, h),
{
    assert forall|x: int, y: int| 0 <= x < w && 0 <= y < h implies {
        let cc = spec_cell_code(g0[x][y]);
        (#[trigger] g2[x][y]) == g0[x][y] || {
            &&& g0[x][y] == ColourType::Colour(cc)
            &&& g2[x][y] == ColourType::Deleting(cc, 40)
            &&& reaches_col(g0, w, h, cc, (x, y), 0)
            &&& reaches_col(g0, w, h, cc, (x, y), w - 1)
        }
    } by {
        let p = (x, y);
        let cc = spec_cell_code(g0[x][y]);
        if cleared_scan(g0, w, h, p, h) {
            let r = choose|r: int| #![auto] 0 <= r < h
                && connected(g0, w, h, cc, p, (0, r));
            assert((0int, r).0 == 0);
            assert(reaches_col(g0, w, h, cc, p, 0));
        }
    }
    assert forall|x: int, y: int| 0 <= x < w && 0 <= y < h implies {
        let cc = spec_cell_code(g0[x][y]);
        (g0[x][y] == ColourType::Colour(cc) && reaches_col(g0, w, h, cc, (x, y), 0)
            && reaches_col(g0, w, h, cc, (x, y), w - 1))
            ==> (#[trigger] g2[x][y]) == ColourType::Deleting(cc, 40)
    } by {
        let p = (x, y);
        let cc = spec_cell_code(g0[x][y]);
        if g0[x][y] == ColourType::Colour(cc) && reaches_col(g0, w, h, cc, p, 0)
            && reaches_col(g0, w, h, cc, p, w - 1) {
            let q0 = choose|q0: (int, int)| #![auto] q0.0 == 0
                && connected(g0, w, h, cc, p, q0);
            assert(0 <= q0.1 < h) by {
                let path = choose|path: Seq<(int, int)>| #![auto]
                    is_path(g0, w, h, cc, path) && path.len() > 0 && path.first() == p
                    && path.last() == q0;
                assert(in_bounds(w, h, path.last()));
            }
            assert(q0 == (0int, q0.1));
            assert(origin_before(g0, w, h, cc, p, h));
            assert(cleared_scan(g0, w, h, p, h));
        }
    }
}

/// The piece a spawn request creates: shape `sh`, rotation 0, at the fixed
/// spawn column (two squares left of the middle) and the spawn row (19
/// squares up), at sub-pixel resolution `s` on a board `sqw` squares wide.
pub open spec fn spawn_piece(sh: TetrominoShape, s: int, sqw: int) -> Tetromino {
    Tetromino {
        shape: sh,
        position: ((s * (sqw / 2 - 2)) as i64, (s * 19) as i64),
        rotation: 0,
    }
}

/// One logic tick, short of the connectivity scan, for drawn shape `sh` and
/// colour `cc`: spawn a piece when none is falling and the cooldown of 30
/// ticks has passed; else apply the periodic one-square gravity step, noting
/// the tick when the piece locks; else leave the state alone.
pub open spec fn tick_rel(
    g: Seq<Seq<ColourType>>,
    piece: Option<Tetromino>,
    tsl: u64,
    w: int,
    h: int,
    s: int,
    sqw: int,
    frame_count: u64,
    sh: TetrominoShape,
    cc: ColourCode,
    g2: Seq<Seq<ColourType>>,
    p2: Option<Tetromino>,
    t2: u64,
) -> bool {
    if piece is None && frame_count - tsl > 30 {
        let t = spawn_piece(sh, s, sqw);
        &&& g2 == board_after_move(g, w, h, Seq::empty(), piece_pixels(t, s),
            ColourType::NoPhysicsColour(cc))
        &&& p2 == Some(t)
        &&& t2 == frame_count
    } else if piece is Some && (frame_count - tsl) % 30 == 29 {
        exists|m: int, pc: ColourCode| {
            &&& #[trigger] slide_rel(g, w, h, s, piece->Some_0, 0, -1, s, true, m, pc, g2, p2)
            &&& t2 == if p2 is None { frame_count } else { tsl }
        }
    } else {
        g2 == g && p2 == piece && t2 == tsl
    }
}

/// The shape drawn for a uniformly random index below six.
fn shape_from_index(k: u32) -> (r: TetrominoShape)
    requires
        k < 6,
    ensures
        r == spec_shape_from_index(k as int),
{
    match k {
        0 => TetrominoShape::LShape,
        1 => TetrominoShape::ReverseLShape,
        2 => TetrominoShape::ZShape,
        3 => TetrominoShape::ReverseZShape,
        4 => TetrominoShape::Line,
        _ => TetrominoShape::Square,
    }
}

pub open spec fn spec_shape_from_index(k: int) -> TetrominoShape {
    if k == 0 {
        TetrominoShape::LShape
    } else if k == 1 {
        TetrominoShape::ReverseLShape
    } else if k == 2 {
        TetrominoShape::ZShape
    } else if k == 3 {
        TetrominoShape::ReverseZShape
    } else if k == 4 {
        TetrominoShape::Line
    } else {
        TetrominoShape::Square
    }
}

/// The colour drawn for a uniformly random index below four.
fn colour_from_index(k: u32) -> (r: ColourCode)
    requires
        k < 4,
    ensures
        r == spec_colour_from_index(k as int),
{
    match k {
        0 => ColourCode::Red,
        1 => ColourCode::Green,
        2 => ColourCode::Blue,
        _ => ColourCode::Violet,
    }
}

pub open spec fn spec_colour_from_index(k: int) -> ColourCode {
    if k == 0 {
        ColourCode::Red
    } else if k == 1 {
        ColourCode::Green
    } else if k == 2 {
        ColourCode::Blue
    } else {
        ColourCode::Violet
    }
}

#[verifier::external_type_specification]
#[verifier::external_body]
pub struct ExThreadRng(rand::rngs::ThreadRng);

/// Relies on rand's `Rng::gen_range` over the range `0..n`: the sample is
/// always below `n` (and the call panics on an empty range, so `n` must be
/// positive). Nothing else is assumed of the value.
#[verifier::external_body]
fn rand_below(rng: &mut rand::rngs::ThreadRng, n: u32) -> (r: u32)
    requires
        n >= 1,
    ensures
        r < n,
{
    rand::Rng::gen_range(rng, 0..n)
}

impl Game {
    /// Put a fresh piece of the given shape and colour on the board at the
    /// fixed spawn position, recording the spawn tick. The board must be
    /// piece-less; the spawned cells overwrite whatever they land on.
    pub fn spawn_with(&mut self, shape: TetrominoShape, code: ColourCode, frame_count: u64)
        requires
            old(self).wf(),
            old(self).spec_piece() is None,
        ensures
            final(self).wf(),
            final(self).spec_width() == old(self).spec_width(),
            final(self).spec_height() == old(self).spec_height(),
            final(self).spec_spw() == old(self).spec_spw(),
            ({
                let t = spawn_piece(shape, old(self).spec_spw(), old(self).spec_square_width());
                &&& final(self)@ == board_after_move(old(self)@, old(self).spec_width(),
                    old(self).spec_height(), Seq::empty(),
                    piece_pixels(t, old(self).spec_spw()),
                    ColourType::NoPhysicsColour(code))
                &&& final(self).spec_piece() == Some(t)
                &&& final(self).spec_time_since_last() == frame_count
            }),
    {
        let ghost w = self.spec_width();
        let ghost h = self.spec_height();
        let ghost sqw = self.spec_square_width();
        let s = self.square_pixel_width;
        let sw = self.square_width;
        let half = sw / 2;
        proof {
            vstd::arithmetic::div_mod::lemma_fundamental_div_mod(sw as int, 2);
            assert(half >= 2);
            assert(half + 2 <= sw);
            assert(s * (half - 2) + 4 * s <= s * (sw as int)) by (nonlinear_arith)
                requires s >= 1 && half - 2 >= 0 && half + 2 <= sw;
            assert(s * 19 + 4 * s <= s * (self.square_height as int)) by (nonlinear_arith)
                requires s >= 1 && self.square_height >= 23;
            assert(s * (half - 2) <= s * (sw as int)) by (nonlinear_arith)
                requires s >= 1 && half - 2 >= 0 && half <= sw;
            assert(s * 19 <= s * (self.square_height as int)) by (nonlinear_arith)
                requires s >= 1 && self.square_height >= 23;
        }
        let px_: usize = s * (half - 2);
        let py_: usize = s * 19;
        let t = Tetromino::new(shape, (px_ as i64, py_ as i64), 0);
        proof {
            assert(t == spawn_piece(shape, s as int, sqw));
            lemma_piece_pixels_bounds(t, s as int);
        }
        let pxv = t.pixels(s);
        let empty_src: Vec<(i64, i64)> = Vec::new();
        proof {
            assert(pix_view(empty_src@) =~= Seq::<(int, int)>::empty());
            assert(pix_view(pxv@) == piece_pixels(t, s as int));
            assert forall|i: int| 0 <= i < pix_view(pxv@).len()
                implies in_bounds(w, h, #[trigger] pix_view(pxv@)[i]) by {
                assert(piece_pixels(t, s as int)[i].0 < t.position.0 + 4 * s);
                assert(piece_pixels(t, s as int)[i].1 < t.position.1 + 4 * s);
            }
        }
        self.repaint(&empty_src, &pxv, ColourType::NoPhysicsColour(code));
        self.tetromino = Some(t);
        self.time_since_last = frame_count;
        proof {
            let ps = piece_pixels(t, s as int);
            assert forall|i: int| 0 <= i < ps.len() implies {
                let p = #[trigger] ps[i];
                in_bounds(w, h, p) && self@[p.0][p.1] == ColourType::NoPhysicsColour(code)
            } by {
                assert(ps[i] == pix_view(pxv@)[i]);
                assert(in_bounds(w, h, pix_view(pxv@)[i]));
                assert(pix_view(pxv@).contains(pix_view(pxv@)[i]));
            }
            assert(piece_state_wf(self@, w, h, s as int, t, code));
            lemma_wf_from_parts_piece(self, t, code);
        }
    }

    /// One logic tick: spawn a uniformly random piece and colour once the
    /// cooldown has passed, apply the periodic gravity step to a falling
    /// piece, then run the connectivity scan.
    pub fn game_update(&mut self, rng: &mut rand::rngs::ThreadRng, frame_count: u64)
        requires
            old(self).wf(),
            frame_count >= old(self).spec_time_since_last(),
        ensures
            final(self).wf(),
            final(self).spec_width() == old(self).spec_width(),
            final(self).spec_height() == old(self).spec_height(),
            final(self).spec_spw() == old(self).spec_spw(),
            exists|sh: TetrominoShape, cc: ColourCode, gmid: Seq<Seq<ColourType>>,
                pmid: Option<Tetromino>, tmid: u64| #![auto] {
                &&& tick_rel(old(self)@, old(self).spec_piece(),
                    old(self).spec_time_since_last(), old(self).spec_width(),
                    old(self).spec_height(), old(self).spec_spw(),
                    old(self).spec_square_width(), frame_count, sh, cc, gmid, pmid, tmid)
                &&& scan_rel(gmid, final(self)@, old(self).spec_width(),
                    old(self).spec_height())
                &&& final(self).spec_piece() == pmid
                &&& final(self).spec_time_since_last() == tmid
            },
    {
        let ghost w = self.spec_width();
        let ghost h = self.spec_height();
        let ghost s = self.spec_spw();
        let ghost sqw = self.spec_square_width();
        let ghost g0 = self@;
        let ghost piece0 = self.spec_piece();
        let ghost tsl0 = self.spec_time_since_last();
        let ghost mut shw: TetrominoShape = TetrominoShape::LShape;
        let ghost mut ccw: ColourCode = ColourCode::Red;
        if self.tetromino.is_none() && frame_count - self.time_since_last > 30 {
            let si = rand_below(rng, 6);
            let ci = rand_below(rng, 4);
            let sh = shape_from_index(si);
            let cc = colour_from_index(ci);
            self.spawn_with(sh, cc, frame_count);
            proof {
                shw = sh;
                ccw = cc;
            }
        } else if self.tetromino.is_some() {
            if (frame_count - self.time_since_last) % 30 == 29 {
                proof {
                    lemma_spw_bound(self);
                }
                self.move_down();
                if self.tetromino.is_none() {
                    self.time_since_last = frame_count;
                }
            }
        }
        let ghost gmid = self@;
        let ghost pmid = self.spec_piece();
        let ghost tmid = self.spec_time_since_last();
        proof {
            assert(tick_rel(g0, piece0, tsl0, w, h, s, sqw, frame_count, shw, ccw,
                gmid, pmid, tmid));
        }
        self.scan_connectivity();
        proof {
            assert(scan_rel(gmid, self@, w, h));
        }
    }
}

impl Game {
    /// Read one cell of a board whose backing store has the right size; the
    /// full invariant need not hold mid-sweep.
    fn cell_at(&self, x: usize, y: usize) -> (r: ColourType)
        requires
            self.board@.len() == self.spec_width() * self.spec_height(),
            x < self.spec_width(),
            y < self.spec_height(),
        ensures
            r == self@[x as int][y as int],
    {
        let n = self.board.len();
        proof {
            lemma_flat_index(self.width as int, self.height as int, x as int, y as int);
            assert(n == self.width * self.height);
        }
        self.board[x * self.height + y]
    }

    /// Tick every deletion countdown in row `y` and report whether the row
    /// triggers the game-over wipe (a settled particle at or above the
    /// high-water row).
    fn dec_detect_row(&mut self, y: usize, high_water: usize) -> (go: bool)
        requires
            old(self).board@.len() == old(self).spec_width() * old(self).spec_height(),
            y < old(self).spec_height(),
            high_water == 19 * old(self).spec_spw(),
        ensures
            final(self)@ == dec_row(old(self)@, y as int),
            go == game_over_row(old(self)@, old(self).spec_width(), y as int,
                old(self).spec_spw()),
            final(self).spec_width() == old(self).spec_width(),
            final(self).spec_height() == old(self).spec_height(),
            final(self).spec_spw() == old(self).spec_spw(),
            final(self).spec_piece() == old(self).spec_piece(),
            final(self).spec_time_since_last() == old(self).spec_time_since_last(),
            final(self).square_width == old(self).square_width,
            final(self).square_height == old(self).square_height,
            final(self).board@.len() == old(self).board@.len(),
    {
        let ghost g0 = self@;
        let ghost w = self.spec_width();
        let ghost h = self.spec_height();
        let w_e = self.width;
        let mut game_over = false;
        let mut x: usize = 0;
        while x < w_e
            invariant
                self.board@.len() == self.spec_width() * self.spec_height(),
                w_e == self.spec_width(),
                w == self.spec_width(),
                h == self.spec_height(),
                (y as int) < h,
                high_water == 19 * self.spec_spw(),
                self.spec_spw() == old(self).spec_spw(),
                self.spec_piece() == old(self).spec_piece(),
                self.spec_time_since_last() == old(self).spec_time_since_last(),
                self.square_width == old(self).square_width,
                self.square_height == old(self).square_height,
                self.board@.len() == old(self).board@.len(),
                self.width == old(self).width,
                self.height == old(self).height,
                self.square_pixel_width == old(self).square_pixel_width,
                self.tetromino == old(self).tetromino,
                g0 == old(self)@,
                x <= w_e,
                forall|a: int, b: int| 0 <= a < w && 0 <= b < h
                    ==> (#[trigger] self@[a][b]) == if b == y && a < x {
                        dec_cell(g0[a][y as int])
                    } else {
                        g0[a][b]
                    },
                game_over == ((y as int) >= 19 * self.spec_spw()
                    && exists|a: int| 0 <= a < x && (#[trigger] g0[a][y as int]) is Colour),
            decreases w_e - x,
        {
            let c = self.cell_at(x, y);
            match c {
                ColourType::Deleting(code, tl) => {
                    if tl > 0 {
                        self.set_cell_raw(x, y, ColourType::Deleting(code, tl - 1));
                    } else {
                        self.set_cell_raw(x, y, ColourType::Empty);
                    }
                },
                ColourType::Colour(_) => {
                    if y >= high_water {
                        game_over = true;
                        proof {
                            assert(g0[x as int][y as int] is Colour);
                        }
                    }
                },
                _ => {},
            }
            x += 1;
        }
        proof {
            assert forall|a: int| 0 <= a < w
                implies self@[a] =~= dec_row(g0, y as int)[a] by {
                assert forall|b: int| 0 <= b < h
                    implies self@[a][b] == dec_row(g0, y as int)[a][b] by {}
            }
            assert(self@ =~= dec_row(g0, y as int));
            if game_over_row(g0, w, y as int, self.spec_spw()) {
                let a = choose|a: int| 0 <= a < w && (#[trigger] g0[a][y as int]) is Colour;
                assert(0 <= a < w_e);
            }
        }
        game_over
    }

    /// The game-over wipe: settled particles at or above 18 logical squares
    /// vanish; lower ones start a countdown of one tick per ten sub-pixels of
    /// board height above them.
    fn wipe_exec(&mut self, threshold: usize)
        requires
            old(self).board@.len() == old(self).spec_width() * old(self).spec_height(),
            threshold == 18 * old(self).spec_spw(),
            old(self).spec_height() <= 0xFFFF,
        ensures
            final(self)@ == wipe(old(self)@, old(self).spec_width(),
                old(self).spec_height(), old(self).spec_spw()),
            final(self).spec_width() == old(self).spec_width(),
            final(self).spec_height() == old(self).spec_height(),
            final(self).spec_spw() == old(self).spec_spw(),
            final(self).spec_piece() == old(self).spec_piece(),
            final(self).spec_time_since_last() == old(self).spec_time_since_last(),
            final(self).square_width == old(self).square_width,
            final(self).square_height == old(self).square_height,
            final(self).board@.len() == old(self).board@.len(),
    {
        let ghost g0 = self@;
        let ghost w = self.spec_width();
        let ghost h = self.spec_height();
        let ghost sp = self.spec_spw();
        let w_e = self.width;
        let h_e = self.height;
        let mut x: usize = 0;
        while x < w_e
            invariant
                self.board@.len() == self.spec_width() * self.spec_height(),
                w_e == w,
                h_e == h,
                w == self.spec_width(),
                h == self.spec_height(),
                h <= 0xFFFF,
                sp == self.spec_spw(),
                threshold == 18 * sp,
                self.spec_piece() == old(self).spec_piece(),
                self.spec_time_since_last() == old(self).spec_time_since_last(),
                self.square_width == old(self).square_width,
                self.square_height == old(self).square_height,
                self.board@.len() == old(self).board@.len(),
                self.width == old(self).width,
                self.height == old(self).height,
                self.square_pixel_width == old(self).square_pixel_width,
                self.tetromino == old(self).tetromino,
                g0 == old(self)@,
                x <= w_e,
                forall|a: int, b: int| 0 <= a < w && 0 <= b < h
                    ==> (#[trigger] self@[a][b]) == if a < x {
                        wipe_cell(g0[a][b], b, h, sp)
                    } else {
                        g0[a][b]
                    },
            decreases w_e - x,
        {
            let mut y: usize = 0;
            while y < h_e
                invariant
                    self.board@.len() == self.spec_width() * self.spec_height(),
                    w_e == w,
                    h_e == h,
                    w == self.spec_width(),
                    h == self.spec_height(),
                    h <= 0xFFFF,
                    sp == self.spec_spw(),
                    threshold == 18 * sp,
                    self.spec_piece() == old(self).spec_piece(),
                    self.spec_time_since_last() == old(self).spec_time_since_last(),
                    self.square_width == old(self).square_width,
                    self.square_height == old(self).square_height,
                    self.board@.len() == old(self).board@.len(),
                    self.width == old(self).width,
                    self.height == old(self).height,
                    self.square_pixel_width == old(self).square_pixel_width,
                    self.tetromino == old(self).tetromino,
                    g0 == old(self)@,
                    x < w_e,
                    y <= h_e,
                    forall|a: int, b: int| 0 <= a < w && 0 <= b < h
                        ==> (#[trigger] self@[a][b]) == if a < x || (a == x && b < y) {
                            wipe_cell(g0[a][b], b, h, sp)
                        } else {
                            g0[a][b]
                        },
                decreases h_e - y,
            {
                let c = self.cell_at(x, y);
                match c {
                    ColourType::Colour(code) => {
                        if y >= threshold {
                            self.set_cell_raw(x, y, ColourType::Empty);
                        } else {
                            self.set_cell_raw(x, y,
                                ColourType::Deleting(code, ((h_e - y) as u32) / 10));
                        }
                    },
                    _ => {},
                }
                y += 1;
            }
            x += 1;
        }
        proof {
            assert forall|a: int| 0 <= a < w
                implies self@[a] =~= wipe(g0, w, h, sp)[a] by {
                assert forall|b: int| 0 <= b < h
                    implies self@[a][b] == wipe(g0, w, h, sp)[a][b] by {}
            }
            assert(self@ =~= wipe(g0, w, h, sp));
        }
    }

    /// The diagonal "roof" pass over row `y`.
    #[verifier::rlimit(100)]
    fn pass1_row_exec(&mut self, y: usize, toggle: &mut Toggle)
        requires
            old(self).board@.len() == old(self).spec_width() * old(self).spec_height(),
            1 <= y,
            (y as int) < old(self).spec_height() - 1,
        ensures
            ({
                let r = pass1_upto(old(self)@, old(self).spec_width(), y as int,
                    old(toggle).view(), old(self).spec_width() as nat);
                final(self)@ == r.0 && final(toggle).view() == r.1
            }),
            final(self).spec_width() == old(self).spec_width(),
            final(self).spec_height() == old(self).spec_height(),
            final(self).spec_spw() == old(self).spec_spw(),
            final(self).spec_piece() == old(self).spec_piece(),
            final(self).spec_time_since_last() == old(self).spec_time_since_last(),
            final(self).square_width == old(self).square_width,
            final(self).square_height == old(self).square_height,
            final(self).board@.len() == old(self).board@.len(),
    {
        let ghost g0 = self@;
        let ghost t0 = toggle.view();
        let ghost w = self.spec_width();
        let ghost h = self.spec_height();
        let w_e = self.width;
        let mut x: usize = 0;
        while x < w_e
            invariant
                self.board@.len() == self.spec_width() * self.spec_height(),
                w_e == w,
                w == self.spec_width(),
                h == self.spec_height(),
                1 <= y,
                (y as int) < h - 1,
                self.spec_spw() == old(self).spec_spw(),
                self.spec_piece() == old(self).spec_piece(),
                self.spec_time_since_last() == old(self).spec_time_since_last(),
                self.square_width == old(self).square_width,
                self.square_height == old(self).square_height,
                self.board@.len() == old(self).board@.len(),
                self.width == old(self).width,
                self.height == old(self).height,
                self.square_pixel_width == old(self).square_pixel_width,
                self.tetromino == old(self).tetromino,
                g0 == old(self)@,
                t0 == old(toggle).view(),
                x <= w_e,
                ({
                    let r = pass1_upto(g0, w, y as int, t0, x as nat);
                    self@ == r.0 && toggle.view() == r.1
                }),
            decreases w_e - x,
        {
            let ghost gprev = self@;
            let ghost tprev = toggle.view();
            let c = self.cell_at(x, y);
            match c {
                ColourType::Colour(_) => {
                    if toggle.toggle() {
                        if x > 0 && x < w_e - 1 && self.cell_at(x + 1, y - 1).is_physics()
                            && self.cell_at(x, y + 1).is_physics()
                            && self.cell_at(x - 1, y - 1).is_empty() {
                            self.move_pixel((x, y), (x - 1, y - 1));
                        } else if x > 0 && x < w_e - 1
                            && self.cell_at(x - 1, y - 1).is_physics()
                            && self.cell_at(x, y + 1).is_physics()
                            && self.cell_at(x + 1, y - 1).is_empty() {
                            self.move_pixel((x, y), (x + 1, y - 1));
                        }
                    } else {
                        if x > 0 && x < w_e - 1 && self.cell_at(x - 1, y - 1).is_physics()
                            && self.cell_at(x, y + 1).is_physics()
                            && self.cell_at(x + 1, y - 1).is_empty() {
                            self.move_pixel((x, y), (x + 1, y - 1));
                        } else if x > 0 && x < w_e - 1
                            && self.cell_at(x + 1, y - 1).is_physics()
                            && self.cell_at(x, y + 1).is_physics()
                            && self.cell_at(x - 1, y - 1).is_empty() {
                            self.move_pixel((x, y), (x - 1, y - 1));
                        }
                    }
                },
                _ => {},
            }
            proof {
                assert(pass1_upto(g0, w, y as int, t0, (x + 1) as nat)
                    == pass1_cell(gprev, w, x as int, y as int, tprev));
                assert(self@ == pass1_cell(gprev, w, x as int, y as int, tprev).0);
                assert(toggle.view() == pass1_cell(gprev, w, x as int, y as int, tprev).1);
            }
            x += 1;
        }
    }

    /// The straight-down pass over row `y`.
    fn pass2_row_exec(&mut self, y: usize)
        requires
            old(self).board@.len() == old(self).spec_width() * old(self).spec_height(),
            1 <= y,
            (y as int) < old(self).spec_height(),
        ensures
            final(self)@ == pass2_upto(old(self)@, y as int, old(self).spec_width() as nat),
            final(self).spec_width() == old(self).spec_width(),
            final(self).spec_height() == old(self).spec_height(),
            final(self).spec_spw() == old(self).spec_spw(),
            final(self).spec_piece() == old(self).spec_piece(),
            final(self).spec_time_since_last() == old(self).spec_time_since_last(),
            final(self).square_width == old(self).square_width,
            final(self).square_height == old(self).square_height,
            final(self).board@.len() == old(self).board@.len(),
    {
        let ghost g0 = self@;
        let ghost w = self.spec_width();
        let ghost h = self.spec_height();
        let w_e = self.width;
        let mut x: usize = 0;
        while x < w_e
            invariant
                self.board@.len() == self.spec_width() * self.spec_height(),
                w_e == w,
                w == self.spec_width(),
                h == self.spec_height(),
                1 <= y,
                (y as int) < h,
                self.spec_spw() == old(self).spec_spw(),
                self.spec_piece() == old(self).spec_piece(),
                self.spec_time_since_last() == old(self).spec_time_since_last(),
                self.square_width == old(self).square_width,
                self.square_height == old(self).square_height,
                self.board@.len() == old(self).board@.len(),
                self.width == old(self).width,
                self.height == old(self).height,
                self.square_pixel_width == old(self).square_pixel_width,
                self.tetromino == old(self).tetromino,
                g0 == old(self)@,
                x <= w_e,
                self@ == pass2_upto(g0, y as int, x as nat),
            decreases w_e - x,
        {
            let ghost gprev = self@;
            let c = self.cell_at(x, y);
            match c {
                ColourType::Colour(_) => {
                    if self.cell_at(x, y - 1).is_empty() {
                        self.move_pixel((x, y), (x, y - 1));
                    }
                },
                _ => {},
            }
            proof {
                assert(pass2_upto(g0, y as int, (x + 1) as nat)
                    == pass2_cell(gprev, x as int, y as int));
                assert(self@ == pass2_cell(gprev, x as int, y as int));
            }
            x += 1;
        }
    }

    /// The diagonal-down pass over row `y`.
    #[verifier::rlimit(100)]
    fn pass3_row_exec(&mut self, y: usize, toggle: &mut Toggle)
        requires
            old(self).board@.len() == old(self).spec_width() * old(self).spec_height(),
            1 <= y,
            (y as int) < old(self).spec_height(),
        ensures
            ({
                let r = pass3_upto(old(self)@, old(self).spec_width(), y as int,
                    old(toggle).view(), old(self).spec_width() as nat);
                final(self)@ == r.0 && final(toggle).view() == r.1
            }),
            final(self).spec_width() == old(self).spec_width(),
            final(self).spec_height() == old(self).spec_height(),
            final(self).spec_spw() == old(self).spec_spw(),
            final(self).spec_piece() == old(self).spec_piece(),
            final(self).spec_time_since_last() == old(self).spec_time_since_last(),
            final(self).square_width == old(self).square_width,
            final(self).square_height == old(self).square_height,
            final(self).board@.len() == old(self).board@.len(),
    {
        let ghost g0 = self@;
        let ghost t0 = toggle.view();
        let ghost w = self.spec_width();
        let ghost h = self.spec_height();
        let w_e = self.width;
        let mut x: usize = 0;
        while x < w_e
            invariant
                self.board@.len() == self.spec_width() * self.spec_height(),
                w_e == w,
                w == self.spec_width(),
                h == self.spec_height(),
                1 <= y,
                (y as int) < h,
                self.spec_spw() == old(self).spec_spw(),
                self.spec_piece() == old(self).spec_piece(),
                self.spec_time_since_last() == old(self).spec_time_since_last(),
                self.square_width == old(self).square_width,
                self.square_height == old(self).square_height,
                self.board@.len() == old(self).board@.len(),
                self.width == old(self).width,
                self.height == old(self).height,
                self.square_pixel_width == old(self).square_pixel_width,
                self.tetromino == old(self).tetromino,
                g0 == old(self)@,
                t0 == old(toggle).view(),
                x <= w_e,
                ({
                    let r = pass3_upto(g0, w, y as int, t0, x as nat);
                    self@ == r.0 && toggle.view() == r.1
                }),
            decreases w_e - x,
        {
            let ghost gprev = self@;
            let ghost tprev = toggle.view();
            let c = self.cell_at(x, y);
            match c {
                ColourType::Colour(_) => {
                    if toggle.toggle() {
                        if x > 0 && self.cell_at(x - 1, y - 1).is_empty() {
                            self.move_pixel((x, y), (x - 1, y - 1));
                        } else if x < w_e - 1 && self.cell_at(x + 1, y - 1).is_empty() {
                            self.move_pixel((x, y), (x + 1, y - 1));
                        }
                    } else {
                        if x < w_e - 1 && self.cell_at(x + 1, y - 1).is_empty() {
                            self.move_pixel((x, y), (x + 1, y - 1));
                        } else if x > 0 && self.cell_at(x - 1, y - 1).is_empty() {
                            self.move_pixel((x, y), (x - 1, y - 1));
                        }
                    }
                },
                _ => {},
            }
            proof {
                assert(pass3_upto(g0, w, y as int, t0, (x + 1) as nat)
                    == pass3_cell(gprev, w, x as int, y as int, tprev));
                assert(self@ == pass3_cell(gprev, w, x as int, y as int, tprev).0);
                assert(toggle.view() == pass3_cell(gprev, w, x as int, y as int, tprev).1);
            }
            x += 1;
        }
    }

    /// One sweep of the settling automaton, bottom row to top: tick deletion
    /// countdowns, fire the game-over wipe when a settled particle sits at or
    /// above the high-water row (and skip the rest of the sweep), and
    /// otherwise settle each row with the roof, straight-down and
    /// diagonal-down passes, re-reading the grid after each move.
    #[verifier::rlimit(100)]
    pub fn physics_update(&mut self)
        requires
            old(self).wf(),
        ensures
            final(self).wf(),
            final(self).spec_width() == old(self).spec_width(),
            final(self).spec_height() == old(self).spec_height(),
            final(self).spec_spw() == old(self).spec_spw(),
            final(self).spec_piece() == old(self).spec_piece(),
            final(self).spec_time_since_last() == old(self).spec_time_since_last(),
            final(self)@ == physics_spec(old(self)@, old(self).spec_width(),
                old(self).spec_height(), old(self).spec_spw()),
    {
        let ghost g0 = self@;
        let ghost w = self.spec_width();
        let ghost h = self.spec_height();
        let ghost sp = self.spec_spw();
        proof {
            lemma_spw_bound(self);
        }
        let s_e = self.square_pixel_width;
        let high_water = 19 * s_e;
        let threshold = 18 * s_e;
        let h_e = self.height;
        let mut toggle = Toggle::new();
        let mut y: usize = 0;
        while y < h_e
            invariant
                old(self).wf(),
                self.board@.len() == self.spec_width() * self.spec_height(),
                h_e == h,
                w == self.spec_width(),
                h == self.spec_height(),
                sp == self.spec_spw(),
                h <= 0xFFFF,
                high_water == 19 * sp,
                threshold == 18 * sp,
                self.spec_piece() == old(self).spec_piece(),
                self.spec_time_since_last() == old(self).spec_time_since_last(),
                self.square_width == old(self).square_width,
                self.square_height == old(self).square_height,
                self.board@.len() == old(self).board@.len(),
                self.width == old(self).width,
                self.height == old(self).height,
                self.square_pixel_width == old(self).square_pixel_width,
                self.tetromino == old(self).tetromino,
                g0 == old(self)@,
                y <= h_e,
                ({
                    let st = sweep_upto(g0, w, h, sp, false, y as nat);
                    !st.2 && st.0 == self@ && st.1 == toggle.view()
                }),
            decreases h_e - y,
        {
            let ghost g_row = self@;
            let ghost tog_row = toggle.view();
            let game_over = self.dec_detect_row(y, high_water);
            let ghost gd = self@;
            proof {
                assert(gd == dec_row(g_row, y as int));
            }
            if game_over {
                self.wipe_exec(threshold);
                proof {
                    assert(row_step(g_row, w, h, sp, y as int, tog_row)
                        == (wipe(gd, w, h, sp), tog_row, true));
                    assert(sweep_upto(g0, w, h, sp, false, (y + 1) as nat).2);
                    assert(sweep_upto(g0, w, h, sp, false, (y + 1) as nat).0 == self@);
                    lemma_sweep_absorb(g0, w, h, sp, false, (y + 1) as nat, h as nat);
                    lemma_sweep_keeps(g0, w, h, sp, false, h as nat);
                    lemma_wf_nophys_preserved(old(self), self);
                }
                return;
            }
            if y == 0 {
                proof {
                    assert(row_step(g_row, w, h, sp, 0, tog_row) == (gd, tog_row, false));
                    assert(sweep_upto(g0, w, h, sp, false, (y + 1) as nat)
                        == (gd, tog_row, false));
                }
                y += 1;
                continue;
            }
            if y < h_e - 1 {
                self.pass1_row_exec(y, &mut toggle);
            }
            let ghost p1 = if (y as int) < h - 1 {
                pass1_upto(gd, w, y as int, tog_row, w as nat)
            } else {
                (gd, tog_row)
            };
            proof {
                assert(self@ == p1.0 && toggle.view() == p1.1);
            }
            self.pass2_row_exec(y);
            let ghost g2 = pass2_upto(p1.0, y as int, w as nat);
            proof {
                assert(self@ == g2);
            }
            self.pass3_row_exec(y, &mut toggle);
            proof {
                let p3 = pass3_upto(g2, w, y as int, p1.1, w as nat);
                assert(self@ == p3.0 && toggle.view() == p3.1);
                assert(row_step(g_row, w, h, sp, y as int, tog_row) == (p3.0, p3.1, false));
                assert(sweep_upto(g0, w, h, sp, false, (y + 1) as nat)
                    == (p3.0, p3.1, false));
            }
            y += 1;
        }
        proof {
            assert(self@ == physics_spec(g0, w, h, sp));
            lemma_sweep_keeps(g0, w, h, sp, false, h as nat);
            lemma_wf_nophys_preserved(old(self), self);
        }
    }
}

/// Movement safety: a slide that obeys the greedy-shift bound lands every
/// piece pixel on the board and never onto a settled (`Colour`) or deleting
/// cell — the piece's own cells block nothing and stay in bounds even when
/// the slide distance is zero.
pub proof fn lemma_slide_targets_safe(
    g: Seq<Seq<ColourType>>,
    w: int,
    h: int,
    ps: Seq<(int, int)>,
    dx: int,
    dy: int,
    limit: int,
    m: int,
)
    requires
        max_shift_props(g, w, h, ps, dx, dy, limit, m),
        forall|i: int| 0 <= i < ps.len() ==> in_bounds(w, h, #[trigger] ps[i])
            && !blocked(g[ps[i].0][ps[i].1]),
    ensures
        forall|i: int| 0 <= i < ps.len() ==> {
            let q = #[trigger] shifted(ps, m * dx, m * dy)[i];
            in_bounds(w, h, q) && !blocked(g[q.0][q.1])
        },
{
    if m > 0 {
        assert(shift_free(g, w, h, ps, m * dx, m * dy));
        assert forall|i: int| 0 <= i < ps.len() implies {
            let q = #[trigger] shifted(ps, m * dx, m * dy)[i];
            in_bounds(w, h, q) && !blocked(g[q.0][q.1])
        } by {
            assert(in_bounds(w, h, (ps[i].0 + m * dx, ps[i].1 + m * dy))
                && !blocked(g[ps[i].0 + m * dx][ps[i].1 + m * dy]));
        }
    } else {
        assert(m * dx == 0 && m * dy == 0) by (nonlinear_arith)
            requires m == 0;
        assert forall|i: int| 0 <= i < ps.len() implies {
            let q = #[trigger] shifted(ps, m * dx, m * dy)[i];
            in_bounds(w, h, q) && !blocked(g[q.0][q.1])
        } by {
            assert(shifted(ps, m * dx, m * dy)[i] == (ps[i].0 + m * dx, ps[i].1 + m * dy));
            assert(shifted(ps, m * dx, m * dy)[i] == ps[i]);
        }
    }
}

} // verus!
