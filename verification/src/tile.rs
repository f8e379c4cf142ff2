//! The 8x8 tile: the atomic unit of deduplication.

use vstd::prelude::*;
use vstd::std_specs::cmp::PartialEqSpecImpl;

verus! {

/// Side length of a tile, in pixels.
pub const TILE_SIZE: usize = 8;

/// Side length of a metatile, in pixels.
pub const METATILE_SIZE: usize = 16;

/// The mathematical model of a pixel block: rows of palette indices, top row first.
pub type Pixels = Seq<Seq<u8>>;

/// A block of `side` rows with `side` pixels each.
pub open spec fn is_square(p: Pixels, side: int) -> bool {
    &&& p.len() == side
    &&& forall|r: int| 0 <= r < side ==> (#[trigger] p[r]).len() == side
}

/// Every pixel is zero.
pub open spec fn is_blank(p: Pixels) -> bool {
    forall|r: int, c: int| 0 <= r < p.len() && 0 <= c < p[r].len() ==> #[trigger] p[r][c] == 0
}

/// Every pixel fits in four bits.
pub open spec fn is_indexed(p: Pixels) -> bool {
    forall|r: int, c: int| 0 <= r < p.len() && 0 <= c < p[r].len() ==> #[trigger] p[r][c] < 16
}

/// The tile mirrored left to right: every row reversed.
pub open spec fn flipped_x(p: Pixels) -> Pixels {
    Seq::new(8, |r: int| Seq::new(8, |c: int| p[r][7 - c]))
}

/// The tile mirrored top to bottom: the rows in reverse order.
pub open spec fn flipped_y(p: Pixels) -> Pixels {
    Seq::new(8, |r: int| p[7 - r])
}

/// The `(flip_x, flip_y)` pair that turns `candidate` into `canonical`, if there is one.
///
/// The four transforms are tried in a fixed order: none, horizontal, both, vertical.
/// The first that fits is the answer.
pub open spec fn orientation(canonical: Pixels, candidate: Pixels) -> Option<(bool, bool)> {
    if canonical == candidate {
        Some((false, false))
    } else if canonical == flipped_x(candidate) {
        Some((true, false))
    } else if canonical == flipped_y(flipped_x(candidate)) {
        Some((true, true))
    } else if canonical == flipped_y(candidate) {
        Some((false, true))
    } else {
        None
    }
}

/// Quadrant `q` of a 16x16 block: 0 top-left, 1 top-right, 2 bottom-left, 3 bottom-right.
pub open spec fn quadrant(block: Pixels, q: int) -> Pixels {
    Seq::new(8, |r: int| Seq::new(8, |c: int| block[r + 8 * (q / 2)][c + 8 * (q % 2)]))
}

/// The 16x16 block in metatile column `mx` and metatile row `my` of an indexed image
/// that is `width` pixels wide.
pub open spec fn metatile_block(indexed: Seq<u8>, width: int, mx: int, my: int) -> Pixels {
    Seq::new(16, |r: int| Seq::new(16, |c: int| indexed[(16 * my + r) * width + 16 * mx + c]))
}

/// Mirroring twice left to right gives the tile back.
pub proof fn lemma_flip_x_involution(p: Pixels)
    requires
        is_square(p, 8),
    ensures
        flipped_x(flipped_x(p)) == p,
{
    let q = flipped_x(flipped_x(p));
    assert forall|r: int| 0 <= r < 8 implies q[r] == p[r] by {
        assert(q[r] =~= p[r]);
    }
    assert(q =~= p);
}

/// Mirroring twice top to bottom gives the tile back.
pub proof fn lemma_flip_y_involution(p: Pixels)
    requires
        is_square(p, 8),
    ensures
        flipped_y(flipped_y(p)) == p,
{
    assert(flipped_y(flipped_y(p)) =~= p);
}

/// The two mirrorings commute.
pub proof fn lemma_flips_commute(p: Pixels)
    requires
        is_square(p, 8),
    ensures
        flipped_x(flipped_y(p)) == flipped_y(flipped_x(p)),
{
    let a = flipped_x(flipped_y(p));
    let b = flipped_y(flipped_x(p));
    assert forall|r: int| 0 <= r < 8 implies a[r] == b[r] by {
        assert(a[r] =~= b[r]);
    }
    assert(a =~= b);
}

/// Mirrored tiles are again 8x8.
pub proof fn lemma_flips_square(p: Pixels)
    requires
        is_square(p, 8),
    ensures
        is_square(flipped_x(p), 8),
        is_square(flipped_y(p), 8),
{
}

/// An 8x8 block of palette indices, stored as eight rows of eight pixels.
#[derive(Clone, Copy, Debug, Eq)]
pub struct Tile {
    pub data: [[u8; 8]; 8],
}

/// A 16x16 block of palette indices: four tiles in quadrant order.
#[derive(Clone, Copy, Debug)]
pub struct Metatile {
    pub data: [[u8; 16]; 16],
}

impl View for Tile {
    type V = Pixels;

    open spec fn view(&self) -> Pixels {
        Seq::new(8, |r: int| self.data[r]@)
    }
}

impl View for Metatile {
    type V = Pixels;

    open spec fn view(&self) -> Pixels {
        Seq::new(16, |r: int| self.data[r]@)
    }
}

impl PartialEq for Tile {
    fn eq(&self, other: &Tile) -> (r: bool) {
        let mut row: usize = 0;
        while row < 8
            invariant
                row <= 8,
                forall|i: int, j: int|
                    0 <= i < row && 0 <= j < 8 ==> self.data[i][j] == other.data[i][j],
            decreases 8 - row,
        {
            let mut col: usize = 0;
            while col < 8
                invariant
                    row < 8,
                    col <= 8,
                    forall|i: int, j: int|
                        0 <= i < row && 0 <= j < 8 ==> self.data[i][j] == other.data[i][j],
                    forall|j: int|
                        0 <= j < col ==> self.data[row as int][j] == other.data[row as int][j],
                decreases 8 - col,
            {
                if self.data[row][col] != other.data[row][col] {
                    proof {
                        assert(self@[row as int][col as int] != other@[row as int][col as int]);
                    }
                    return false;
                }
                col += 1;
            }
            row += 1;
        }
        proof {
            assert forall|r: int| 0 <= r < 8 implies self@[r] == other@[r] by {
                assert(self@[r] =~= other@[r]);
            }
            assert(self@ =~= other@);
            Tile::lemma_same_pixels(*self, *other);
        }
        true
    }
}

impl PartialEqSpecImpl for Tile {
    open spec fn obeys_eq_spec() -> bool {
        true
    }

    open spec fn eq_spec(&self, other: &Tile) -> bool {
        self@ == other@
    }
}

impl Tile {
    /// A tile always models as an 8x8 block.
    pub proof fn lemma_square(self)
        ensures
            is_square(self@, 8),
    {
    }

    /// Tiles with the same pixels are the same tile.
    pub proof fn lemma_same_pixels(a: Tile, b: Tile)
        requires
            a@ == b@,
        ensures
            a == b,
    {
        assert forall|r: int| 0 <= r < 8 implies a.data[r] == b.data[r] by {
            assert(a@[r] == b@[r]);
            assert forall|c: int| 0 <= c < 8 implies a.data[r][c] == b.data[r][c] by {
                assert(a.data[r]@[c] == b.data[r]@[c]);
            }
            assert(a.data[r] =~= b.data[r]);
        }
        assert(a.data =~= b.data);
    }

    /// The all-zero tile.
    pub fn blank() -> (t: Tile)
        ensures
            is_blank(t@),
    {
        Tile { data: [[0u8; 8]; 8] }
    }

    /// A tile holding the given rows.
    pub fn new(data: [[u8; 8]; 8]) -> (t: Tile)
        ensures
            t.data == data,
    {
        Tile { data }
    }

    /// Reverses row order top to bottom.
    pub fn flip_y(&self) -> (t: Tile)
        ensures
            t@ == flipped_y(self@),
    {
        let t = Tile {
            data: [
                self.data[7],
                self.data[6],
                self.data[5],
                self.data[4],
                self.data[3],
                self.data[2],
                self.data[1],
                self.data[0],
            ],
        };
        proof {
            assert(t@ =~= flipped_y(self@));
        }
        t
    }

    /// Reverses each row left to right.
    pub fn flip_x(&self) -> (t: Tile)
        ensures
            t@ == flipped_x(self@),
    {
        let t = Tile {
            data: [
                Tile::reverse_row(self.data[0]),
                Tile::reverse_row(self.data[1]),
                Tile::reverse_row(self.data[2]),
                Tile::reverse_row(self.data[3]),
                Tile::reverse_row(self.data[4]),
                Tile::reverse_row(self.data[5]),
                Tile::reverse_row(self.data[6]),
                Tile::reverse_row(self.data[7]),
            ],
        };
        proof {
            assert forall|r: int| 0 <= r < 8 implies t@[r] == flipped_x(self@)[r] by {
                assert(t@[r] =~= flipped_x(self@)[r]);
            }
            assert(t@ =~= flipped_x(self@));
        }
        t
    }

    /// One row, reversed.
    pub fn reverse_row(row: [u8; 8]) -> (r: [u8; 8])
        ensures
            r@ == Seq::new(8, |c: int| row[7 - c]),
    {
        let r = [row[7], row[6], row[5], row[4], row[3], row[2], row[1], row[0]];
        proof {
            assert(r@ =~= Seq::new(8, |c: int| row[7 - c]));
        }
        r
    }

    /// Whether `other`, possibly mirrored, has the pixels of `self`.
    ///
    /// Returns `(true, flip_x, flip_y)` with the first fitting transform of `other`,
    /// or `(false, false, false)` when none fits.
    pub fn is_equivalent(&self, other: &Tile) -> (r: (bool, bool, bool))
        ensures
            r == match orientation(self@, other@) {
                Some((flip_x, flip_y)) => (true, flip_x, flip_y),
                None => (false, false, false),
            },
    {
        if *self == *other {
            return (true, false, false);
        }
        let mirrored = other.flip_x();
        if *self == mirrored {
            return (true, true, false);
        }
        let turned = mirrored.flip_y();
        if *self == turned {
            return (true, true, true);
        }
        let upended = turned.flip_x();
        proof {
            lemma_flips_commute(other@);
            lemma_flip_x_involution(flipped_y(other@));
        }
        if *self == upended {
            (true, false, true)
        } else {
            (false, false, false)
        }
    }

    /// The four quadrant tiles of a 16x16 block, in row-major order.
    pub fn extract(metatile: [[u8; 16]; 16]) -> (tiles: Vec<Tile>)
        ensures
            tiles@.len() == 4,
            forall|q: int|
                0 <= q < 4 ==> (#[trigger] tiles@[q])@ == quadrant(
                    Seq::new(16, |r: int| metatile[r]@),
                    q,
                ),
    {
        let ghost block = Seq::new(16, |r: int| metatile[r]@);
        let mut tiles: Vec<Tile> = Vec::with_capacity(4);
        let mut y: usize = 0;
        while y < 2
            invariant
                y <= 2,
                tiles@.len() == 2 * y,
                block == Seq::new(16, |r: int| metatile[r]@),
                forall|q: int| 0 <= q < tiles@.len() ==> (#[trigger] tiles@[q])@ == quadrant(block, q),
            decreases 2 - y,
        {
            let mut x: usize = 0;
            while x < 2
                invariant
                    y < 2,
                    x <= 2,
                    tiles@.len() == 2 * y + x,
                    block == Seq::new(16, |r: int| metatile[r]@),
                    forall|q: int|
                        0 <= q < tiles@.len() ==> (#[trigger] tiles@[q])@ == quadrant(block, q),
                decreases 2 - x,
            {
                let y_start: usize = y * TILE_SIZE;
                let x_start: usize = x * TILE_SIZE;
                let mut tile: [[u8; 8]; 8] = [[0u8; 8]; 8];
                let mut ty: usize = 0;
                while ty < 8
                    invariant
                        ty <= 8,
                        y_start == 8 * y,
                        x_start == 8 * x,
                        y < 2,
                        x < 2,
                        forall|r: int, c: int|
                            0 <= r < ty && 0 <= c < 8 ==> tile[r][c] == metatile[r + y_start][c
                                + x_start],
                    decreases 8 - ty,
                {
                    let mut line: [u8; 8] = [0u8; 8];
                    let mut tx: usize = 0;
                    while tx < 8
                        invariant
                            tx <= 8,
                            ty < 8,
                            y_start == 8 * y,
                            x_start == 8 * x,
                            y < 2,
                            x < 2,
                            forall|c: int|
                                0 <= c < tx ==> line[c] == metatile[ty + y_start][c + x_start],
                        decreases 8 - tx,
                    {
                        line[tx] = metatile[ty + y_start][tx + x_start];
                        tx += 1;
                    }
                    tile[ty] = line;
                    ty += 1;
                }
                let t = Tile::new(tile);
                proof {
                    let q = 2 * y + x;
                    let want = quadrant(block, q as int);
                    assert forall|r: int| 0 <= r < 8 implies t@[r] == want[r] by {
                        assert(t@[r] =~= want[r]);
                    }
                    assert(t@ =~= want);
                }
                tiles.push(t);
                x += 1;
            }
            y += 1;
        }
        tiles
    }
}

impl Metatile {
    /// Cuts the block in metatile column `mx` and metatile row `my` out of an indexed
    /// image of `width` by `height` pixels.
    pub fn cut(indexed: &Vec<u8>, width: usize, height: usize, mx: usize, my: usize) -> (block:
        Metatile)
        requires
            indexed@.len() == width * height,
            16 * mx + 16 <= width,
            16 * my + 16 <= height,
        ensures
            block@ == metatile_block(indexed@, width as int, mx as int, my as int),
    {
        let mut data: [[u8; 16]; 16] = [[0u8; 16]; 16];
        let total: usize = indexed.len();
        let mut r: usize = 0;
        while r < 16
            invariant
                r <= 16,
                total == indexed@.len() == width * height,
                16 * mx + 16 <= width,
                16 * my + 16 <= height,
                forall|i: int, j: int|
                    0 <= i < r && 0 <= j < 16 ==> data[i][j] == indexed@[(16 * my + i) * width + 16
                        * mx + j],
            decreases 16 - r,
        {
            let row: usize = 16 * my + r;
            proof {
                lemma_row_in_bounds(row as int, width as int, height as int);
            }
            let start: usize = row * width + 16 * mx;
            let mut line: [u8; 16] = [0u8; 16];
            let mut c: usize = 0;
            while c < 16
                invariant
                    c <= 16,
                    start + 16 <= indexed@.len() == total,
                    forall|j: int| 0 <= j < c ==> line[j] == indexed@[start + j],
                decreases 16 - c,
            {
                line[c] = indexed[start + c];
                c += 1;
            }
            data[r] = line;
            r += 1;
        }
        let block = Metatile { data };
        proof {
            let want = metatile_block(indexed@, width as int, mx as int, my as int);
            assert forall|i: int| 0 <= i < 16 implies block@[i] == want[i] by {
                assert(block@[i] =~= want[i]);
            }
            assert(block@ =~= want);
        }
        block
    }
}

/// A whole row of an image lies inside its pixel buffer.
pub proof fn lemma_row_in_bounds(row: int, width: int, height: int)
    requires
        0 <= row < height,
        0 <= width,
    ensures
        0 <= row * width,
        row * width + width <= width * height,
{
    assert(row * width + width == (row + 1) * width) by (nonlinear_arith);
    assert((row + 1) * width <= height * width) by (nonlinear_arith)
        requires
            row + 1 <= height,
            0 <= width,
    ;
    assert(height * width == width * height) by (nonlinear_arith);
    assert(0 <= row * width) by (nonlinear_arith)
        requires
            0 <= row,
            0 <= width,
    ;
}

} // verus!
