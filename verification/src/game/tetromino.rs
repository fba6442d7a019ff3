use vstd::prelude::*;

verus! {

broadcast use vstd::seq::group_seq_axioms;

/// The six piece kinds. Each is a 4x4 occupancy mask per rotation state.
#[derive(Copy, Clone, PartialEq, Eq, Structural, Debug)]
pub enum TetrominoShape {
    LShape,
    ReverseLShape,
    ZShape,
    ReverseZShape,
    Line,
    Square,
}

/// Occupancy of the 4x4 mask of `shape` at rotation `rotation`, at mask row
/// `sy` (row 0 is the bottom) and mask column `sx`. Rotations at or above 4
/// fall back to the last rotation arm, as the executable tables do.
pub open spec fn spec_mask(shape: TetrominoShape, rotation: u8, sy: int, sx: int) -> bool {
    match shape {
        TetrominoShape::LShape => {
            if rotation == 0 {
                (sx == 1 && 1 <= sy <= 3) || (sy == 3 && sx == 2)
            } else if rotation == 1 {
                (sy == 2 && 1 <= sx <= 3) || (sy == 3 && sx == 1)
            } else if rotation == 2 {
                (sy == 1 && (sx == 1 || sx == 2)) || (sx == 2 && (sy == 2 || sy == 3))
            } else {
                (sy == 2 && sx == 2) || (sy == 3 && 0 <= sx <= 2)
            }
        },
        TetrominoShape::ReverseLShape => {
            if rotation == 0 {
                (sx == 2 && 1 <= sy <= 3) || (sy == 3 && sx == 1)
            } else if rotation == 1 {
                (sy == 2 && sx == 1) || (sy == 3 && 1 <= sx <= 3)
            } else if rotation == 2 {
                (sy == 1 && (sx == 1 || sx == 2)) || (sx == 1 && (sy == 2 || sy == 3))
            } else {
                (sy == 2 && sx == 0) || (sy == 3 && 0 <= sx <= 2)
            }
        },
        TetrominoShape::ZShape => {
            if rotation == 0 || rotation == 2 {
                (sy == 1 && sx == 2) || (sy == 2 && (sx == 1 || sx == 2)) || (sy == 3 && sx == 1)
            } else {
                (sy == 2 && (sx == 1 || sx == 2)) || (sy == 3 && (sx == 2 || sx == 3))
            }
        },
        TetrominoShape::ReverseZShape => {
            if rotation == 0 || rotation == 2 {
                (sy == 1 && sx == 1) || (sy == 2 && (sx == 1 || sx == 2)) || (sy == 3 && sx == 2)
            } else {
                (sy == 2 && (sx == 2 || sx == 3)) || (sy == 3 && (sx == 1 || sx == 2))
            }
        },
        TetrominoShape::Line => {
            if rotation == 0 || rotation == 2 {
                sx == 1 && 0 <= sy <= 3
            } else {
                sy == 2 && 0 <= sx <= 3
            }
        },
        TetrominoShape::Square => {
            (sy == 1 || sy == 2) && (sx == 1 || sx == 2)
        },
    }
}

/// Number of occupied mask cells among the first `n` cells, taken in
/// column-major order (cell `c` is column `c / 4`, row `c % 4`).
pub open spec fn mask_count_upto(shape: TetrominoShape, rotation: u8, n: nat) -> int
    decreases n,
{
    if n == 0 {
        0
    } else {
        let c = (n - 1) as int;
        mask_count_upto(shape, rotation, (n - 1) as nat)
            + if spec_mask(shape, rotation, c % 4, c / 4) { 1int } else { 0int }
    }
}

/// Number of occupied cells of the whole 4x4 mask.
pub open spec fn mask_count(shape: TetrominoShape, rotation: u8) -> int {
    mask_count_upto(shape, rotation, 16)
}

/// Every mask of every shape occupies exactly four cells.
pub proof fn lemma_mask_count(shape: TetrominoShape, rotation: u8)
    ensures
        mask_count(shape, rotation) == 4,
{
    reveal_with_fuel(mask_count_upto, 17);
    match shape {
        TetrominoShape::LShape => {
            if rotation == 0 {
                assert(mask_count(shape, rotation) == 4);
            } else if rotation == 1 {
                assert(mask_count(shape, rotation) == 4);
            } else if rotation == 2 {
                assert(mask_count(shape, rotation) == 4);
            } else {
                assert(mask_count(shape, rotation) == 4);
            }
        },
        TetrominoShape::ReverseLShape => {
            if rotation == 0 {
                assert(mask_count(shape, rotation) == 4);
            } else if rotation == 1 {
                assert(mask_count(shape, rotation) == 4);
            } else if rotation == 2 {
                assert(mask_count(shape, rotation) == 4);
            } else {
                assert(mask_count(shape, rotation) == 4);
            }
        },
        TetrominoShape::ZShape => {
            if rotation == 0 || rotation == 2 {
                assert(mask_count(shape, rotation) == 4);
            } else {
                assert(mask_count(shape, rotation) == 4);
            }
        },
        TetrominoShape::ReverseZShape => {
            if rotation == 0 || rotation == 2 {
                assert(mask_count(shape, rotation) == 4);
            } else {
                assert(mask_count(shape, rotation) == 4);
            }
        },
        TetrominoShape::Line => {
            if rotation == 0 || rotation == 2 {
                assert(mask_count(shape, rotation) == 4);
            } else {
                assert(mask_count(shape, rotation) == 4);
            }
        },
        TetrominoShape::Square => {
            assert(mask_count(shape, rotation) == 4);
        },
    }
}

/// The currently falling piece: a shape kind, a rotation state, and the
/// absolute sub-pixel position of the mask's bottom-left corner on the board.
#[derive(Copy, Clone, Debug)]
pub struct Tetromino {
    pub shape: TetrominoShape,
    pub position: (i64, i64),
    pub rotation: u8,
}

/// The sub-pixels of one occupied mask cell whose bottom-left sub-pixel is
/// `(x0, y0)`, in the enumeration order of the pixel iterator: the horizontal
/// offset advances in the outer position, the vertical one in the inner.
pub open spec fn cell_pixels(x0: int, y0: int, s: int) -> Seq<(int, int)> {
    Seq::new((s * s) as nat, |k: int| (x0 + k / s, y0 + k % s))
}

/// The absolute sub-pixels of the first `n` mask cells (column-major cell
/// order) of piece `t` at sub-pixel resolution `s`.
pub open spec fn pixels_of_cells(t: Tetromino, s: int, n: nat) -> Seq<(int, int)>
    decreases n,
{
    if n == 0 {
        Seq::empty()
    } else {
        let c = (n - 1) as int;
        let sx = c / 4;
        let sy = c % 4;
        pixels_of_cells(t, s, (n - 1) as nat) + if spec_mask(t.shape, t.rotation, sy, sx) {
            cell_pixels(t.position.0 as int + sx * s, t.position.1 as int + sy * s, s)
        } else {
            Seq::empty()
        }
    }
}

/// All absolute sub-pixels of piece `t` at resolution `s`, in enumeration
/// order: mask cells column-major, sub-pixels of a cell as in `cell_pixels`.
pub open spec fn piece_pixels(t: Tetromino, s: int) -> Seq<(int, int)> {
    pixels_of_cells(t, s, 16)
}

/// The coordinates of an executable pixel list as mathematical integers.
pub open spec fn pix_view(v: Seq<(i64, i64)>) -> Seq<(int, int)> {
    Seq::new(v.len(), |i: int| (v[i].0 as int, v[i].1 as int))
}

proof fn lemma_pixels_len_upto(t: Tetromino, s: int, n: nat)
    requires
        s >= 1,
    ensures
        pixels_of_cells(t, s, n).len() == mask_count_upto(t.shape, t.rotation, n) * (s * s),
    decreases n,
{
    if n > 0 {
        lemma_pixels_len_upto(t, s, (n - 1) as nat);
        let c = (n - 1) as int;
        if spec_mask(t.shape, t.rotation, c % 4, c / 4) {
            assert(cell_pixels(t.position.0 as int + (c / 4) * s, t.position.1 as int + (c % 4) * s, s).len()
                == s * s);
            assert((mask_count_upto(t.shape, t.rotation, (n - 1) as nat) + 1) * (s * s)
                == mask_count_upto(t.shape, t.rotation, (n - 1) as nat) * (s * s) + s * s)
                by (nonlinear_arith);
        }
    }
}

proof fn lemma_pixel_offsets_upto(t: Tetromino, s: int, n: nat)
    requires
        s >= 1,
        n <= 16,
    ensures
        forall|i: int| 0 <= i < pixels_of_cells(t, s, n).len() ==> {
            let p = #[trigger] pixels_of_cells(t, s, n)[i];
            t.position.0 <= p.0 < t.position.0 + 4 * s
                && t.position.1 <= p.1 < t.position.1 + 4 * s
        },
    decreases n,
{
    if n > 0 {
        lemma_pixel_offsets_upto(t, s, (n - 1) as nat);
        let c = (n - 1) as int;
        let sx = c / 4;
        let sy = c % 4;
        assert(0 <= sx <= 3 && 0 <= sy <= 3);
        let prev = pixels_of_cells(t, s, (n - 1) as nat);
        let cur = pixels_of_cells(t, s, n);
        if spec_mask(t.shape, t.rotation, sy, sx) {
            let base_x = t.position.0 as int + sx * s;
            let base_y = t.position.1 as int + sy * s;
            assert forall|i: int| 0 <= i < cur.len() implies {
                let p = #[trigger] cur[i];
                t.position.0 <= p.0 < t.position.0 + 4 * s
                    && t.position.1 <= p.1 < t.position.1 + 4 * s
            } by {
                if i < prev.len() {
                    assert(cur[i] == prev[i]);
                } else {
                    let k = i - prev.len();
                    assert(cur[i] == cell_pixels(base_x, base_y, s)[k]);
                    assert(0 <= k / s < s && 0 <= k % s < s) by (nonlinear_arith)
                        requires s >= 1 && 0 <= k < s * s;
                    assert(0 <= sx * s <= 3 * s && 0 <= sy * s <= 3 * s) by (nonlinear_arith)
                        requires s >= 1 && 0 <= sx <= 3 && 0 <= sy <= 3;
                }
            }
        } else {
            assert forall|i: int| 0 <= i < cur.len() implies {
                let p = #[trigger] cur[i];
                t.position.0 <= p.0 < t.position.0 + 4 * s
                    && t.position.1 <= p.1 < t.position.1 + 4 * s
            } by {
                assert(cur[i] == prev[i]);
            }
        }
    }
}

/// Pixel enumeration is exact: a piece's pixel sequence holds one entry per
/// occupied mask cell and sub-pixel (four cells, so `4 * s * s` entries), and
/// every entry lies in the `4s x 4s` square anchored at the piece's position.
pub proof fn lemma_piece_pixels_bounds(t: Tetromino, s: int)
    requires
        s >= 1,
    ensures
        piece_pixels(t, s).len() == mask_count(t.shape, t.rotation) * (s * s),
        piece_pixels(t, s).len() == 4 * (s * s),
        forall|i: int| 0 <= i < piece_pixels(t, s).len() ==> {
            let p = #[trigger] piece_pixels(t, s)[i];
            t.position.0 <= p.0 < t.position.0 + 4 * s
                && t.position.1 <= p.1 < t.position.1 + 4 * s
        },
{
    lemma_pixels_len_upto(t, s, 16);
    lemma_pixel_offsets_upto(t, s, 16);
    lemma_mask_count(t.shape, t.rotation);
}

impl Tetromino {
    pub fn new(shape: TetrominoShape, position: (i64, i64), rotation: u8) -> (r: Self)
        ensures
            r == (Tetromino { shape, position, rotation }),
    {
        Self { shape, position, rotation }
    }

    /// The 4x4 occupancy mask of this piece at its current rotation, indexed
    /// as `mask[sy][sx]` with row 0 at the bottom.
    pub fn get_shape(&self) -> (r: [[bool; 4]; 4])
        ensures
            forall|sy: int, sx: int| 0 <= sy < 4 && 0 <= sx < 4
                ==> r@[sy]@[sx] == spec_mask(self.shape, self.rotation, sy, sx),
    {
        let r = [
            [
                mask_at(self.shape, self.rotation, 0, 0),
                mask_at(self.shape, self.rotation, 0, 1),
                mask_at(self.shape, self.rotation, 0, 2),
                mask_at(self.shape, self.rotation, 0, 3),
            ],
            [
                mask_at(self.shape, self.rotation, 1, 0),
                mask_at(self.shape, self.rotation, 1, 1),
                mask_at(self.shape, self.rotation, 1, 2),
                mask_at(self.shape, self.rotation, 1, 3),
            ],
            [
                mask_at(self.shape, self.rotation, 2, 0),
                mask_at(self.shape, self.rotation, 2, 1),
                mask_at(self.shape, self.rotation, 2, 2),
                mask_at(self.shape, self.rotation, 2, 3),
            ],
            [
                mask_at(self.shape, self.rotation, 3, 0),
                mask_at(self.shape, self.rotation, 3, 1),
                mask_at(self.shape, self.rotation, 3, 2),
                mask_at(self.shape, self.rotation, 3, 3),
            ],
        ];
        proof {
            assert forall|sy: int, sx: int| 0 <= sy < 4 && 0 <= sx < 4
                implies r@[sy]@[sx] == spec_mask(self.shape, self.rotation, sy, sx) by {
                assert(sy == 0 || sy == 1 || sy == 2 || sy == 3);
                assert(sx == 0 || sx == 1 || sx == 2 || sx == 3);
            }
        }
        r
    }

    /// The absolute sub-pixels of this piece, materialised in enumeration
    /// order.
    pub fn pixels(&self, s: usize) -> (v: Vec<(i64, i64)>)
        requires
            1 <= s <= 0xFFFF,
            -0x4000_0000 <= self.position.0 <= 0x4000_0000,
            -0x4000_0000 <= self.position.1 <= 0x4000_0000,
        ensures
            pix_view(v@) == piece_pixels(*self, s as int),
    {
        let mut v: Vec<(i64, i64)> = Vec::new();
        let mut c: usize = 0;
        while c < 16
            invariant
                c <= 16,
                1 <= s <= 0xFFFF,
                -0x4000_0000 <= self.position.0 <= 0x4000_0000,
                -0x4000_0000 <= self.position.1 <= 0x4000_0000,
                pix_view(v@) == pixels_of_cells(*self, s as int, c as nat),
            decreases 16 - c,
        {
            let sx = c / 4;
            let sy = c % 4;
            proof {
                assert(sx * s <= 3 * 0xFFFF && sy * s <= 3 * 0xFFFF && s * s <= 0xFFFF * 0xFFFF)
                    by (nonlinear_arith)
                    requires sx <= 3 && sy <= 3 && 1 <= s <= 0xFFFF;
            }
            let ss: usize = s * s;
            if mask_at(self.shape, self.rotation, sy, sx) {
                let base_x: i64 = self.position.0 + (sx * s) as i64;
                let base_y: i64 = self.position.1 + (sy * s) as i64;
                let ghost cell = cell_pixels(base_x as int, base_y as int, s as int);
                let ghost before = pix_view(v@);
                let mut k: usize = 0;
                while k < ss
                    invariant
                        ss == s * s,
                        k <= ss,
                        1 <= s <= 0xFFFF,
                        -0x5000_0000 <= base_x <= 0x5000_0000,
                        -0x5000_0000 <= base_y <= 0x5000_0000,
                        cell == cell_pixels(base_x as int, base_y as int, s as int),
                        pix_view(v@) == before + cell.take(k as int),
                    decreases ss - k,
                {
                    proof {
                        assert(0 <= (k as int) / (s as int) < s as int
                            && 0 <= (k as int) % (s as int) < s as int)
                            by (nonlinear_arith)
                            requires 1 <= s && 0 <= k < s * s;
                    }
                    let p: (i64, i64) = (base_x + (k / s) as i64, base_y + (k % s) as i64);
                    let ghost prev = v@;
                    v.push(p);
                    proof {
                        assert(cell[k as int]
                            == (base_x as int + (k as int) / (s as int),
                                base_y as int + (k as int) % (s as int)));
                        assert(pix_view(prev).len() == prev.len());
                        assert(cell.take(k as int).len() == k);
                        assert(cell.take(k + 1).len() == k + 1);
                        assert(prev.len() == before.len() + k);
                        assert forall|j: int| 0 <= j < pix_view(v@).len()
                            implies pix_view(v@)[j] == (before + cell.take(k + 1))[j] by {
                            if j < prev.len() {
                                assert(v@[j] == prev[j]);
                                assert(pix_view(prev)[j] == (before + cell.take(k as int))[j]);
                                if j >= before.len() {
                                    assert((before + cell.take(k as int))[j]
                                        == cell.take(k as int)[j - before.len()]);
                                    assert((before + cell.take(k + 1))[j]
                                        == cell.take(k + 1)[j - before.len()]);
                                }
                            } else {
                                assert(j == before.len() + k);
                                assert(v@[j] == p);
                                assert((before + cell.take(k + 1))[j] == cell.take(k + 1)[k as int]);
                                assert(cell.take(k + 1)[k as int] == cell[k as int]);
                            }
                        }
                        assert(pix_view(v@) =~= before + cell.take(k + 1));
                    }
                    k += 1;
                }
                proof {
                    assert(cell.take((s * s) as int) =~= cell);
                    assert(pix_view(v@) =~= pixels_of_cells(*self, s as int, (c + 1) as nat));
                }
            } else {
                proof {
                    assert(pixels_of_cells(*self, s as int, (c + 1) as nat)
                        =~= pixels_of_cells(*self, s as int, c as nat) + Seq::<(int, int)>::empty());
                    assert(pix_view(v@) =~= pixels_of_cells(*self, s as int, (c + 1) as nat));
                }
            }
            c += 1;
        }
        v
    }

    /// All sub-pixels of this piece as a restartable cursor, in the same
    /// enumeration order as `pixels`.
    pub fn get_all_pixels(&self, square_pixel_width: u32) -> (it: PixelIterator)
        requires
            1 <= square_pixel_width <= 0xFFFF,
            -0x4000_0000 <= self.position.0 <= 0x4000_0000,
            -0x4000_0000 <= self.position.1 <= 0x4000_0000,
        ensures
            it.remaining() == piece_pixels(*self, square_pixel_width as int),
    {
        let pixels = self.pixels(square_pixel_width as usize);
        let mut it = PixelIterator { pixels, index: 0 };
        it.skip_until_valid(false);
        it
    }
}

fn mask_at(shape: TetrominoShape, rotation: u8, sy: usize, sx: usize) -> (b: bool)
    ensures
        b == spec_mask(shape, rotation, sy as int, sx as int),
{
    match shape {
        TetrominoShape::LShape => {
            if rotation == 0 {
                (sx == 1 && 1 <= sy && sy <= 3) || (sy == 3 && sx == 2)
            } else if rotation == 1 {
                (sy == 2 && 1 <= sx && sx <= 3) || (sy == 3 && sx == 1)
            } else if rotation == 2 {
                (sy == 1 && (sx == 1 || sx == 2)) || (sx == 2 && (sy == 2 || sy == 3))
            } else {
                (sy == 2 && sx == 2) || (sy == 3 && sx <= 2)
            }
        },
        TetrominoShape::ReverseLShape => {
            if rotation == 0 {
                (sx == 2 && 1 <= sy && sy <= 3) || (sy == 3 && sx == 1)
            } else if rotation == 1 {
                (sy == 2 && sx == 1) || (sy == 3 && 1 <= sx && sx <= 3)
            } else if rotation == 2 {
                (sy == 1 && (sx == 1 || sx == 2)) || (sx == 1 && (sy == 2 || sy == 3))
            } else {
                (sy == 2 && sx == 0) || (sy == 3 && sx <= 2)
            }
        },
        TetrominoShape::ZShape => {
            if rotation == 0 || rotation == 2 {
                (sy == 1 && sx == 2) || (sy == 2 && (sx == 1 || sx == 2)) || (sy == 3 && sx == 1)
            } else {
                (sy == 2 && (sx == 1 || sx == 2)) || (sy == 3 && (sx == 2 || sx == 3))
            }
        },
        TetrominoShape::ReverseZShape => {
            if rotation == 0 || rotation == 2 {
                (sy == 1 && sx == 1) || (sy == 2 && (sx == 1 || sx == 2)) || (sy == 3 && sx == 2)
            } else {
                (sy == 2 && (sx == 2 || sx == 3)) || (sy == 3 && (sx == 1 || sx == 2))
            }
        },
        TetrominoShape::Line => {
            if rotation == 0 || rotation == 2 {
                sx == 1 && sy <= 3
            } else {
                sy == 2 && sx <= 3
            }
        },
        TetrominoShape::Square => {
            (sy == 1 || sy == 2) && (sx == 1 || sx == 2)
        },
    }
}

proof fn lemma_skip_one(s: Seq<(int, int)>, n: int)
    requires
        0 <= n < s.len(),
    ensures
        s.skip(n + 1) == s.skip(n).skip(1),
{
    assert(s.skip(n).len() == s.len() - n);
    assert(s.skip(n + 1) =~= s.skip(n).skip(1));
}

/// A cursor over a piece's sub-pixels. The pixels are enumerated up front, so
/// the cursor always rests on the next pixel to yield.
#[derive(Debug)]
pub struct PixelIterator {
    pixels: Vec<(i64, i64)>,
    index: usize,
}

impl PixelIterator {
    /// The pixels this cursor has yet to yield, front first.
    pub closed spec fn remaining(self) -> Seq<(int, int)> {
        if self.index <= self.pixels.len() {
            pix_view(self.pixels@).skip(self.index as int)
        } else {
            Seq::empty()
        }
    }

    /// Move the cursor so that it rests on the next pixel to yield. Pixels
    /// are enumerated up front, so this only has work to do when
    /// `guarantee_first` asks it to step past the pixel under the cursor.
    pub fn skip_until_valid(&mut self, guarantee_first: bool)
        ensures
            final(self).remaining() == if guarantee_first && old(self).remaining().len() > 0 {
                old(self).remaining().skip(1)
            } else {
                old(self).remaining()
            },
    {
        if guarantee_first && self.index < self.pixels.len() {
            proof {
                assert(pix_view(self.pixels@).len() == self.pixels@.len());
                lemma_skip_one(pix_view(self.pixels@), self.index as int);
            }
            self.index += 1;
        }
    }

    /// Yield the pixel under the cursor and advance, or `None` once the
    /// enumeration is exhausted.
    pub fn next(&mut self) -> (r: Option<(i64, i64)>)
        ensures
            old(self).remaining().len() == 0 ==> r is None && final(self).remaining().len() == 0,
            old(self).remaining().len() > 0 ==> {
                &&& r is Some
                &&& (r->Some_0.0 as int, r->Some_0.1 as int) == old(self).remaining()[0]
                &&& final(self).remaining() == old(self).remaining().skip(1)
            },
    {
        if self.index < self.pixels.len() {
            let p = self.pixels[self.index];
            proof {
                assert(pix_view(self.pixels@).len() == self.pixels@.len());
                lemma_skip_one(pix_view(self.pixels@), self.index as int);
            }
            self.index += 1;
            Some(p)
        } else {
            None
        }
    }
}

} // verus!
