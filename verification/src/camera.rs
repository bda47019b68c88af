//! The image as a list of pixel tasks: the image is cut into square tiles,
//! the tiles may be put in a random order, and each tile is then walked
//! pixel by pixel. A tile at the right or the lower edge holds what is
//! left of the image, so that the tasks are the pixels of the image, each
//! once.

use rand::seq::SliceRandom;
use vstd::arithmetic::div_mod::lemma_fundamental_div_mod_converse;
use vstd::arithmetic::mul::lemma_mul_inequality;
use vstd::prelude::*;
use crate::key::ONE;
use crate::scene_parser::image_pixels;

verus! {

/// What the scheduler reads of a camera: the size of the image in pixels,
/// the number of samples along one side of a pixel, and the bounce budget
/// of each primary ray.
#[derive(Copy, Clone, Debug)]
pub struct Camera {
    /// Width of the image in pixels.
    pub h_size: u32,
    /// Height of the image in pixels.
    pub v_size: u32,
    /// Samples along one side of a pixel; zero and one both mean one
    /// sample through the centre.
    pub antialias: u32,
    /// Bounce budget of a primary ray.
    pub reflection_limit: u32,
}

/// Which side of an image is the longer one.
#[derive(Copy, Clone, Debug, PartialEq, Eq, Structural)]
pub enum Orientation {
    /// The image is at least as wide as it is high: the field of view
    /// spans its width.
    Landscape,
    /// The image is higher than it is wide: the field of view spans its
    /// height.
    Portrait,
}

/// How a pixel is sampled.
#[derive(Copy, Clone, Debug, PartialEq, Eq, Structural)]
pub enum Sampling {
    /// One ray through the centre of the pixel.
    Center,
    /// A grid of `side` by `side` rays, each weighted with one part in
    /// `points`.
    Grid { side: u32, points: u32 },
}

impl Sampling {
    /// The places at which a pixel is sampled, as cells of the grid in
    /// the order in which they are sampled: column by column. Sampling
    /// through the centre has no cells.
    pub open spec fn spec_cells(self) -> Seq<(u32, u32)> {
        match self {
            Sampling::Center => Seq::empty(),
            Sampling::Grid { side, points } => Seq::new(
                (side * side) as nat,
                |k: int| ((k / (side as int)) as u32, (k % (side as int)) as u32),
            ),
        }
    }

    /// The cells of the grid in the order in which they are sampled.
    pub fn cells(&self) -> (cells: Vec<(u32, u32)>)
        ensures
            cells@ == self.spec_cells(),
    {
        let mut cells: Vec<(u32, u32)> = Vec::new();
        match *self {
            Sampling::Center => {},
            Sampling::Grid { side, points } => {
                let mut x: u32 = 0;
                while x < side
                    invariant
                        x <= side,
                        cells.len() == x * side,
                        forall|k: int|
                            0 <= k < cells.len() ==> cells[k] == ((k / (side as int)) as u32, (k % (
                            side as int)) as u32),
                    decreases side - x,
                {
                    let mut y: u32 = 0;
                    while y < side
                        invariant
                            x < side,
                            y <= side,
                            cells.len() == x * side + y,
                            forall|k: int|
                                0 <= k < cells.len() ==> cells[k] == (
                                    (k / (side as int)) as u32,
                                    (k % (side as int)) as u32,
                                ),
                        decreases side - y,
                    {
                        proof {
                            lemma_fundamental_div_mod_converse(
                                x * side + y,
                                side as int,
                                x as int,
                                y as int,
                            );
                        }
                        cells.push((x, y));
                        y += 1;
                    }
                    assert((x + 1) * side == x * side + side) by (nonlinear_arith);
                    x += 1;
                }
                assert(cells@ =~= self.spec_cells());
            },
        }
        cells
    }
}

/// The number of tiles of side `tile` that it takes to span `size` pixels.
pub open spec fn tiles_along(size: int, tile: int) -> int {
    if size <= 0 {
        0
    } else {
        (size - 1) / tile + 1
    }
}

/// The origin of tile number `k` of an image that is `cols` tiles wide:
/// tiles are counted row by row, left to right.
pub open spec fn origin_at(cols: int, tile: int, k: int) -> (u32, u32) {
    (((k % cols) * tile) as u32, ((k / cols) * tile) as u32)
}

/// The origins of the tiles of a `w` by `h` image, row by row.
pub open spec fn tile_origins(w: u32, h: u32, tile: u32) -> Seq<(u32, u32)> {
    let cols = tiles_along(w as int, tile as int);
    let rows = tiles_along(h as int, tile as int);
    Seq::new((cols * rows) as nat, |k: int| origin_at(cols, tile as int, k))
}

/// How far a tile of side `tile` that starts at `origin` reaches inside a
/// side of `size` pixels: its whole side, or what is left of the image.
pub open spec fn clip(tile: u32, origin: u32, size: u32) -> int {
    if origin >= size {
        0
    } else if size - origin < tile {
        size - origin
    } else {
        tile as int
    }
}

/// The pixels of the tile with this origin that lie inside a `w` by `h`
/// image, row by row from the top, each row left to right.
pub open spec fn clipped_tile(origin: (u32, u32), tile: u32, w: u32, h: u32) -> Seq<(u32, u32)> {
    let across = clip(tile, origin.0, w);
    let down = clip(tile, origin.1, h);
    Seq::new(
        (across * down) as nat,
        |k: int| ((origin.0 + k % across) as u32, (origin.1 + k / across) as u32),
    )
}

/// The pixel tasks of a list of tiles: tile after tile, of each tile the
/// pixels that lie inside the image.
pub open spec fn clipped_pixels_of(tiles: Seq<(u32, u32)>, tile: u32, w: u32, h: u32) -> Seq<
    (u32, u32),
>
    decreases tiles.len(),
{
    if tiles.len() == 0 {
        Seq::empty()
    } else {
        clipped_pixels_of(tiles.drop_last(), tile, w, h) + clipped_tile(tiles.last(), tile, w, h)
    }
}

/// Whether `tiles` is an order in which the tiles of the image may be
/// rendered: the tiles of the image, each once, and in their own order
/// unless they were shuffled.
pub open spec fn is_tile_order(
    tiles: Seq<(u32, u32)>,
    w: u32,
    h: u32,
    tile: u32,
    shuffle: bool,
) -> bool {
    &&& tiles.to_multiset() == tile_origins(w, h, tile).to_multiset()
    &&& !shuffle ==> tiles == tile_origins(w, h, tile)
}

proof fn lemma_split(q: int, r: int, d: int)
    requires
        0 <= r < d,
    ensures
        (q * d + r) / d == q,
        (q * d + r) % d == r,
{
    lemma_fundamental_div_mod_converse(q * d + r, d, q, r);
}

proof fn lemma_tiles_along(size: int, tile: int)
    requires
        0 < size,
        0 < tile,
    ensures
        (tiles_along(size, tile) - 1) * tile < size,
        size <= tiles_along(size, tile) * tile,
        0 < tiles_along(size, tile) <= size,
{
    let q = (size - 1) / tile;
    vstd::arithmetic::div_mod::lemma_fundamental_div_mod(size - 1, tile);
    vstd::arithmetic::div_mod::lemma_mod_bound(size - 1, tile);
    vstd::arithmetic::div_mod::lemma_div_pos_is_pos(size - 1, tile);
    assert(size - 1 == tile * q + (size - 1) % tile);
    assert(tile * q == q * tile) by (nonlinear_arith);
    assert((q + 1) * tile == q * tile + tile) by (nonlinear_arith);
    assert(q <= q * tile) by (nonlinear_arith)
        requires
            0 <= q,
            1 <= tile,
    ;
}

/// Puts the tiles in a random order.
///
/// Calls `shuffle` of `rand::seq::SliceRandom` with the generator that
/// `rand::thread_rng` returns. The order that comes out is a matter of
/// chance; the contract claims only that no tile is lost, added or
/// repeated: the list holds what it held, each tile as often as before.
#[verifier::external_body]
fn shuffle_tiles(tiles: &mut Vec<(u32, u32)>)
    ensures
        final(tiles)@.to_multiset() == old(tiles)@.to_multiset(),
{
    tiles.shuffle(&mut rand::thread_rng());
}

impl Camera {
    /// A camera for an image of `h_size` by `v_size` pixels, with `aa`
    /// samples along the side of a pixel and a bounce budget of
    /// `max_depth`.
    pub fn new(h_size: u32, v_size: u32, aa: u32, max_depth: u32) -> (c: Camera)
        ensures
            c.h_size == h_size,
            c.v_size == v_size,
            c.antialias == aa,
            c.reflection_limit == max_depth,
    {
        Camera { h_size, v_size, antialias: aa, reflection_limit: max_depth }
    }

    /// Which side of the image the field of view spans, from the key of
    /// the ratio of its width to its height: the width where the ratio is
    /// at least one, the height where it is less.
    pub fn orientation(aspect_ratio: i64) -> (o: Orientation)
        ensures
            o == if aspect_ratio >= ONE {
                Orientation::Landscape
            } else {
                Orientation::Portrait
            },
    {
        if aspect_ratio >= ONE {
            Orientation::Landscape
        } else {
            Orientation::Portrait
        }
    }

    /// The origins of the tiles of the image, row by row from the top,
    /// each row left to right.
    pub fn tiles(&self, tile_size: u32) -> (tiles: Vec<(u32, u32)>)
        requires
            tile_size > 0,
        ensures
            tiles@ == tile_origins(self.h_size, self.v_size, tile_size),
    {
        let mut tiles: Vec<(u32, u32)> = Vec::new();
        if self.h_size == 0 || self.v_size == 0 {
            assert(tiles@ =~= tile_origins(self.h_size, self.v_size, tile_size)) by {
                let cols = tiles_along(self.h_size as int, tile_size as int);
                let rows = tiles_along(self.v_size as int, tile_size as int);
                assert(cols * rows == 0) by (nonlinear_arith)
                    requires
                        cols == 0 || rows == 0,
                ;
            }
            return tiles;
        }
        proof {
            lemma_tiles_along(self.h_size as int, tile_size as int);
            lemma_tiles_along(self.v_size as int, tile_size as int);
        }
        let cols: u32 = (self.h_size - 1) / tile_size + 1;
        let rows: u32 = (self.v_size - 1) / tile_size + 1;
        let mut cy: u32 = 0;
        while cy < rows
            invariant
                tile_size > 0,
                self.h_size > 0,
                self.v_size > 0,
                cols == tiles_along(self.h_size as int, tile_size as int),
                rows == tiles_along(self.v_size as int, tile_size as int),
                (cols - 1) * tile_size < self.h_size,
                (rows - 1) * tile_size < self.v_size,
                cy <= rows,
                tiles.len() == cy * cols,
                forall|k: int|
                    0 <= k < tiles.len() ==> tiles[k] == origin_at(
                        cols as int,
                        tile_size as int,
                        k,
                    ),
            decreases rows - cy,
        {
            let mut cx: u32 = 0;
            while cx < cols
                invariant
                    tile_size > 0,
                    (cols - 1) * tile_size < self.h_size,
                    (rows - 1) * tile_size < self.v_size,
                    cy < rows,
                    cx <= cols,
                    tiles.len() == cy * cols + cx,
                    forall|k: int|
                        0 <= k < tiles.len() ==> tiles[k] == origin_at(
                            cols as int,
                            tile_size as int,
                            k,
                        ),
                decreases cols - cx,
            {
                proof {
                    lemma_split(cy as int, cx as int, cols as int);
                    lemma_mul_inequality(cx as int, cols - 1, tile_size as int);
                    lemma_mul_inequality(cy as int, rows - 1, tile_size as int);
                    assert(cx * tile_size >= 0 && cy * tile_size >= 0) by (nonlinear_arith)
                        requires
                            cx >= 0,
                            cy >= 0,
                            tile_size >= 0,
                    ;
                }
                tiles.push((cx * tile_size, cy * tile_size));
                cx += 1;
            }
            assert((cy + 1) * cols == cy * cols + cols) by (nonlinear_arith);
            cy += 1;
        }
        assert(tiles@ =~= tile_origins(self.h_size, self.v_size, tile_size)) by {
            assert(rows * cols == cols * rows) by (nonlinear_arith);
        }
        tiles
    }

    /// The pixel tasks of a list of tiles: tile after tile in the order
    /// of the list, and of each tile the pixels that lie inside the
    /// image, row by row from the top, each row left to right.
    pub fn pixels(&self, tiles: &Vec<(u32, u32)>, tile_size: u32) -> (pixels: Vec<(u32, u32)>)
        ensures
            pixels@ == clipped_pixels_of(tiles@, tile_size, self.h_size, self.v_size),
    {
        let mut pixels: Vec<(u32, u32)> = Vec::new();
        let mut k: usize = 0;
        while k < tiles.len()
            invariant
                k <= tiles.len(),
                pixels@ == clipped_pixels_of(
                    tiles@.take(k as int),
                    tile_size,
                    self.h_size,
                    self.v_size,
                ),
            decreases tiles.len() - k,
        {
            assert(tiles@.take(k + 1).drop_last() =~= tiles@.take(k as int));
            push_tile(&mut pixels, tiles[k], tile_size, self.h_size, self.v_size);
            k += 1;
        }
        assert(tiles@.take(k as int) =~= tiles@);
        pixels
    }

    /// The pixel tasks of one rendering of the image, in the order in
    /// which they are handed out: the pixels of the image, each once.
    ///
    /// The image is cut into tiles of side `tile_size`; a tile at the
    /// right or the lower edge holds what is left of the image. With
    /// `shuffle` the order of the tiles is left to chance; the order of
    /// the pixels inside a tile never is. Without it the tiles come row by
    /// row. The tasks are the pixels of the tiles, tile after tile.
    pub fn render(&self, shuffle: bool, tile_size: u32) -> (tasks: Vec<(u32, u32)>)
        requires
            tile_size > 0,
        ensures
            tasks@.no_duplicates(),
            forall|x: u32, y: u32|
                #[trigger] tasks@.contains((x, y)) <==> x < self.h_size && y < self.v_size,
            tasks.len() == self.h_size * self.v_size,
            exists|tiles: Seq<(u32, u32)>|
                is_tile_order(tiles, self.h_size, self.v_size, tile_size, shuffle) && tasks@
                    == #[trigger] clipped_pixels_of(tiles, tile_size, self.h_size, self.v_size),
            !shuffle ==> tasks@ == clipped_pixels_of(
                tile_origins(self.h_size, self.v_size, tile_size),
                tile_size,
                self.h_size,
                self.v_size,
            ),
    {
        let mut tiles = self.tiles(tile_size);
        if shuffle {
            shuffle_tiles(&mut tiles);
        }
        let tasks = self.pixels(&tiles, tile_size);
        proof {
            assert(is_tile_order(tiles@, self.h_size, self.v_size, tile_size, shuffle));
            lemma_render_is_the_image(tiles@, self.h_size, self.v_size, tile_size, shuffle);
        }
        tasks
    }

    /// How a pixel is sampled: through its centre where the camera asks
    /// for no more than one sample a side, on a grid otherwise.
    pub fn render_pixel(&self) -> (s: Sampling)
        requires
            self.antialias * self.antialias <= u32::MAX,
        ensures
            self.antialias <= 1 ==> s == Sampling::Center,
            self.antialias > 1 ==> s == (Sampling::Grid {
                side: self.antialias,
                points: (self.antialias * self.antialias) as u32,
            }),
    {
        if self.antialias <= 1 {
            Sampling::Center
        } else {
            Sampling::Grid { side: self.antialias, points: self.antialias * self.antialias }
        }
    }
}

/// Every tile of the image starts on a multiple of the tile's side,
/// inside the image.
pub proof fn lemma_tile_origins(w: u32, h: u32, tile: u32, k: int)
    requires
        tile > 0,
        0 <= k < tile_origins(w, h, tile).len(),
    ensures
        tile_origins(w, h, tile)[k].0 == (k % tiles_along(w as int, tile as int)) * tile,
        tile_origins(w, h, tile)[k].1 == (k / tiles_along(w as int, tile as int)) * tile,
        0 <= k % tiles_along(w as int, tile as int) < tiles_along(w as int, tile as int),
        0 <= k / tiles_along(w as int, tile as int) < tiles_along(h as int, tile as int),
        tile_origins(w, h, tile)[k].0 < w,
        tile_origins(w, h, tile)[k].1 < h,
{
    let cols = tiles_along(w as int, tile as int);
    let rows = tiles_along(h as int, tile as int);
    assert(cols > 0 && rows > 0) by (nonlinear_arith)
        requires
            0 <= k < cols * rows,
            cols >= 0,
            rows >= 0,
    ;
    lemma_tiles_along(w as int, tile as int);
    lemma_tiles_along(h as int, tile as int);
    let cx = k % cols;
    let cy = k / cols;
    vstd::arithmetic::div_mod::lemma_fundamental_div_mod(k, cols);
    vstd::arithmetic::div_mod::lemma_mod_bound(k, cols);
    vstd::arithmetic::div_mod::lemma_div_pos_is_pos(k, cols);
    assert(cy < rows) by (nonlinear_arith)
        requires
            k == cols * cy + cx,
            0 <= cx,
            k < cols * rows,
            cols > 0,
    ;
    lemma_mul_inequality(cx, cols - 1, tile as int);
    lemma_mul_inequality(cy, rows - 1, tile as int);
    assert(0 <= cx * tile && 0 <= cy * tile) by (nonlinear_arith)
        requires
            0 <= cx,
            0 <= cy,
            0 < tile,
    ;
}

proof fn lemma_tile_origins_are_distinct(w: u32, h: u32, tile: u32)
    requires
        tile > 0,
    ensures
        tile_origins(w, h, tile).no_duplicates(),
{
    let origins = tile_origins(w, h, tile);
    let cols = tiles_along(w as int, tile as int);
    assert forall|i: int, j: int|
        0 <= i < origins.len() && 0 <= j < origins.len() && i != j implies origins[i]
        != origins[j] by {
        lemma_tile_origins(w, h, tile, i);
        lemma_tile_origins(w, h, tile, j);
        if origins[i] == origins[j] {
            assert(i % cols == j % cols) by (nonlinear_arith)
                requires
                    (i % cols) * tile == (j % cols) * tile,
                    tile > 0,
            ;
            assert(i / cols == j / cols) by (nonlinear_arith)
                requires
                    (i / cols) * tile == (j / cols) * tile,
                    tile > 0,
            ;
            vstd::arithmetic::div_mod::lemma_fundamental_div_mod(i, cols);
            vstd::arithmetic::div_mod::lemma_fundamental_div_mod(j, cols);
        }
    }
}

fn push_tile(pixels: &mut Vec<(u32, u32)>, origin: (u32, u32), tile: u32, w: u32, h: u32)
    ensures
        final(pixels)@ == old(pixels)@ + clipped_tile(origin, tile, w, h),
{
    let (x, y) = origin;
    let across: u32 = if x >= w {
        0
    } else if w - x < tile {
        w - x
    } else {
        tile
    };
    let down: u32 = if y >= h {
        0
    } else if h - y < tile {
        h - y
    } else {
        tile
    };
    let ghost before = pixels@;
    let mut dy: u32 = 0;
    while dy < down
        invariant
            across == clip(tile, x, w),
            down == clip(tile, y, h),
            dy <= down,
            pixels.len() == before.len() + dy * across,
            forall|j: int| 0 <= j < before.len() ==> pixels[j] == before[j],
            forall|j: int|
                0 <= j < dy * across ==> #[trigger] pixels[before.len() + j] == (
                    (x + j % (across as int)) as u32,
                    (y + j / (across as int)) as u32,
                ),
        decreases down - dy,
    {
        let mut dx: u32 = 0;
        while dx < across
            invariant
                across == clip(tile, x, w),
                down == clip(tile, y, h),
                dy < down,
                dx <= across,
                pixels.len() == before.len() + dy * across + dx,
                forall|j: int| 0 <= j < before.len() ==> pixels[j] == before[j],
                forall|j: int|
                    0 <= j < dy * across + dx ==> #[trigger] pixels[before.len() + j] == (
                        (x + j % (across as int)) as u32,
                        (y + j / (across as int)) as u32,
                    ),
            decreases across - dx,
        {
            proof {
                lemma_split(dy as int, dx as int, across as int);
            }
            pixels.push((x + dx, y + dy));
            dx += 1;
        }
        assert((dy + 1) * across == dy * across + across) by (nonlinear_arith);
        dy += 1;
    }
    proof {
        let own = clipped_tile(origin, tile, w, h);
        assert(down * across == across * down) by (nonlinear_arith);
        assert(across * down >= 0) by (nonlinear_arith)
            requires
                across >= 0,
                down >= 0,
        ;
        assert(pixels@.len() == (before + own).len());
        assert forall|j: int| 0 <= j < pixels@.len() implies pixels@[j] == (before + own)[j] by {
            if j >= before.len() {
                assert(pixels[before.len() + (j - before.len())] == own[j - before.len()]);
            }
        }
        assert(pixels@ =~= before + own);
    }
}

/// A pixel is in a tile exactly where it lies between the origin of the
/// tile and the end of the tile or of the image, whichever comes first;
/// and no pixel is in a tile twice.
pub proof fn lemma_clipped_tile(origin: (u32, u32), tile: u32, w: u32, h: u32, p: (u32, u32))
    ensures
        clipped_tile(origin, tile, w, h).contains(p) <==> origin.0 <= p.0 < origin.0 + clip(
            tile,
            origin.0,
            w,
        ) && origin.1 <= p.1 < origin.1 + clip(tile, origin.1, h),
        clipped_tile(origin, tile, w, h).no_duplicates(),
{
    let own = clipped_tile(origin, tile, w, h);
    let across = clip(tile, origin.0, w);
    let down = clip(tile, origin.1, h);
    assert(across * down >= 0) by (nonlinear_arith)
        requires
            across >= 0,
            down >= 0,
    ;
    assert forall|k: int| 0 <= k < own.len() implies 0 <= #[trigger] (k % across) < across && 0
        <= k / across < down by {
        assert(across > 0) by (nonlinear_arith)
            requires
                0 <= k < across * down,
                across >= 0,
        ;
        vstd::arithmetic::div_mod::lemma_fundamental_div_mod(k, across);
        vstd::arithmetic::div_mod::lemma_mod_bound(k, across);
        vstd::arithmetic::div_mod::lemma_div_pos_is_pos(k, across);
        let q = k / across;
        let r = k % across;
        assert(q < down) by (nonlinear_arith)
            requires
                k == across * q + r,
                0 <= r,
                k < across * down,
                across > 0,
        ;
    }
    if own.contains(p) {
        let k = choose|k: int| 0 <= k < own.len() && own[k] == p;
        assert(0 <= k % across < across);
    }
    if origin.0 <= p.0 < origin.0 + across && origin.1 <= p.1 < origin.1 + down {
        let dx = p.0 - origin.0;
        let dy = p.1 - origin.1;
        let k = dy * across + dx;
        lemma_split(dy, dx, across);
        assert(0 <= k < across * down) by (nonlinear_arith)
            requires
                k == dy * across + dx,
                0 <= dx < across,
                0 <= dy < down,
        ;
        assert(own[k] == p);
    }
    assert forall|i: int, j: int| 0 <= i < own.len() && 0 <= j < own.len() && i != j implies own[i]
        != own[j] by {
        assert(0 <= i % across < across);
        assert(0 <= j % across < across);
        vstd::arithmetic::div_mod::lemma_fundamental_div_mod(i, across);
        vstd::arithmetic::div_mod::lemma_fundamental_div_mod(j, across);
    }
}

/// A pixel is among the tasks of a list of tiles exactly where it is in
/// one of the tiles.
pub proof fn lemma_clipped_pixels(tiles: Seq<(u32, u32)>, tile: u32, w: u32, h: u32, p: (u32, u32))
    ensures
        clipped_pixels_of(tiles, tile, w, h).contains(p) <==> exists|i: int|
            0 <= i < tiles.len() && #[trigger] clipped_tile(tiles[i], tile, w, h).contains(p),
    decreases tiles.len(),
{
    if tiles.len() > 0 {
        let head = tiles.drop_last();
        let before = clipped_pixels_of(head, tile, w, h);
        let own = clipped_tile(tiles.last(), tile, w, h);
        let all = before + own;
        lemma_clipped_pixels(head, tile, w, h, p);
        if all.contains(p) {
            let k = choose|k: int| 0 <= k < all.len() && all[k] == p;
            if k < before.len() {
                assert(before[k] == p);
                let i = choose|i: int|
                    0 <= i < head.len() && #[trigger] clipped_tile(head[i], tile, w, h).contains(p);
                assert(clipped_tile(tiles[i], tile, w, h).contains(p));
            } else {
                assert(own[k - before.len()] == p);
                assert(clipped_tile(tiles[tiles.len() - 1], tile, w, h).contains(p));
            }
        }
        if exists|i: int|
            0 <= i < tiles.len() && #[trigger] clipped_tile(tiles[i], tile, w, h).contains(p) {
            let i = choose|i: int|
                0 <= i < tiles.len() && #[trigger] clipped_tile(tiles[i], tile, w, h).contains(p);
            if i < head.len() {
                assert(clipped_tile(head[i], tile, w, h).contains(p));
                let k = choose|k: int| 0 <= k < before.len() && before[k] == p;
                assert(all[k] == p);
            } else {
                let k = choose|k: int| 0 <= k < own.len() && own[k] == p;
                assert(all[before.len() + k] == p);
            }
        }
    }
}

proof fn lemma_aligned(tiles: Seq<(u32, u32)>, w: u32, h: u32, tile: u32, i: int)
    requires
        tile > 0,
        tiles.to_multiset() == tile_origins(w, h, tile).to_multiset(),
        0 <= i < tiles.len(),
    ensures
        tiles[i].0 as int % tile as int == 0,
        tiles[i].1 as int % tile as int == 0,
        tiles[i].0 < w,
        tiles[i].1 < h,
{
    let origins = tile_origins(w, h, tile);
    let o = tiles[i];
    assert(tiles.contains(o));
    vstd::seq_lib::to_multiset_contains(tiles, o);
    vstd::seq_lib::to_multiset_contains(origins, o);
    let k = choose|k: int| 0 <= k < origins.len() && origins[k] == o;
    lemma_tile_origins(w, h, tile, k);
    let cols = tiles_along(w as int, tile as int);
    assert(tiles[i].0 == (k % cols) * tile);
    assert(tiles[i].1 == (k / cols) * tile);
    vstd::arithmetic::div_mod::lemma_mod_multiples_basic(k % cols, tile as int);
    vstd::arithmetic::div_mod::lemma_mod_multiples_basic(k / cols, tile as int);
}

proof fn lemma_tile_of_pixel(origin: (u32, u32), tile: u32, w: u32, h: u32, p: (u32, u32))
    requires
        tile > 0,
        origin.0 as int % tile as int == 0,
        origin.1 as int % tile as int == 0,
        clipped_tile(origin, tile, w, h).contains(p),
    ensures
        origin.0 == (p.0 as int / tile as int) * tile,
        origin.1 == (p.1 as int / tile as int) * tile,
{
    let t = tile as int;
    lemma_clipped_tile(origin, tile, w, h, p);
    vstd::arithmetic::div_mod::lemma_fundamental_div_mod(origin.0 as int, t);
    vstd::arithmetic::div_mod::lemma_fundamental_div_mod(origin.1 as int, t);
    let qx = origin.0 as int / t;
    let qy = origin.1 as int / t;
    assert(t * qx == qx * t && t * qy == qy * t) by (nonlinear_arith);
    lemma_fundamental_div_mod_converse(p.0 as int, t, qx, p.0 - origin.0);
    lemma_fundamental_div_mod_converse(p.1 as int, t, qy, p.1 - origin.1);
}

proof fn lemma_clipped_pixels_are_distinct(tiles: Seq<(u32, u32)>, w: u32, h: u32, tile: u32, n: int)
    requires
        tile > 0,
        tiles.to_multiset() == tile_origins(w, h, tile).to_multiset(),
        tiles.no_duplicates(),
        0 <= n <= tiles.len(),
    ensures
        clipped_pixels_of(tiles.take(n), tile, w, h).no_duplicates(),
    decreases n,
{
    if n > 0 {
        let part = tiles.take(n);
        let head = part.drop_last();
        assert(head =~= tiles.take(n - 1));
        lemma_clipped_pixels_are_distinct(tiles, w, h, tile, n - 1);
        let before = clipped_pixels_of(head, tile, w, h);
        let own = clipped_tile(part.last(), tile, w, h);
        lemma_clipped_tile(part.last(), tile, w, h, (0, 0));
        assert forall|i: int, j: int| 0 <= i < before.len() && 0 <= j < own.len() implies before[i]
            != own[j] by {
            let p = before[i];
            if p == own[j] {
                assert(before.contains(p));
                assert(own.contains(p));
                lemma_clipped_pixels(head, tile, w, h, p);
                let k = choose|k: int|
                    0 <= k < head.len() && #[trigger] clipped_tile(head[k], tile, w, h).contains(p);
                lemma_aligned(tiles, w, h, tile, k);
                lemma_aligned(tiles, w, h, tile, n - 1);
                lemma_tile_of_pixel(tiles[k], tile, w, h, p);
                lemma_tile_of_pixel(tiles[n - 1], tile, w, h, p);
                assert(tiles[k] == tiles[n - 1]);
            }
        }
        vstd::seq_lib::lemma_no_dup_in_concat(before, own);
    }
}

proof fn lemma_image(w: u32, h: u32, p: (u32, u32))
    ensures
        image_pixels(w, h).contains(p) <==> p.0 < w && p.1 < h,
        image_pixels(w, h).no_duplicates(),
        image_pixels(w, h).len() == w * h,
{
    let all = image_pixels(w, h);
    let width = w as int;
    assert(w * h >= 0) by (nonlinear_arith)
        requires
            w >= 0,
            h >= 0,
    ;
    assert forall|k: int| 0 <= k < all.len() implies 0 <= #[trigger] (k % width) < width && 0 <= k
        / width < h by {
        assert(width > 0) by (nonlinear_arith)
            requires
                0 <= k < width * h,
                width >= 0,
        ;
        vstd::arithmetic::div_mod::lemma_fundamental_div_mod(k, width);
        vstd::arithmetic::div_mod::lemma_mod_bound(k, width);
        vstd::arithmetic::div_mod::lemma_div_pos_is_pos(k, width);
        let q = k / width;
        let r = k % width;
        assert(q < h) by (nonlinear_arith)
            requires
                k == width * q + r,
                0 <= r,
                k < width * h,
                width > 0,
        ;
    }
    if all.contains(p) {
        let k = choose|k: int| 0 <= k < all.len() && all[k] == p;
        assert(0 <= k % width < width);
    }
    if p.0 < w && p.1 < h {
        let k = p.1 * width + p.0;
        lemma_split(p.1 as int, p.0 as int, width);
        assert(0 <= k < width * h) by (nonlinear_arith)
            requires
                k == p.1 * width + p.0,
                0 <= p.0 < width,
                0 <= p.1 < h,
        ;
        assert(all[k] == p);
    }
    assert forall|i: int, j: int| 0 <= i < all.len() && 0 <= j < all.len() && i != j implies all[i]
        != all[j] by {
        assert(0 <= i % width < width);
        assert(0 <= j % width < width);
        vstd::arithmetic::div_mod::lemma_fundamental_div_mod(i, width);
        vstd::arithmetic::div_mod::lemma_fundamental_div_mod(j, width);
    }
}

/// The tasks of a rendering are the pixels of the image, each once, in
/// whatever order the tiles come: no pixel is handed out twice, a pixel
/// is handed out exactly where it is in the image, and there are as many
/// tasks as the image has pixels.
pub proof fn lemma_render_is_the_image(
    tiles: Seq<(u32, u32)>,
    w: u32,
    h: u32,
    tile: u32,
    shuffle: bool,
)
    requires
        tile > 0,
        is_tile_order(tiles, w, h, tile, shuffle),
    ensures
        clipped_pixels_of(tiles, tile, w, h).no_duplicates(),
        forall|x: u32, y: u32|
            #[trigger] clipped_pixels_of(tiles, tile, w, h).contains((x, y)) <==> x < w && y < h,
        clipped_pixels_of(tiles, tile, w, h).len() == w * h,
{
    let origins = tile_origins(w, h, tile);
    let tasks = clipped_pixels_of(tiles, tile, w, h);
    let t = tile as int;
    lemma_tile_origins_are_distinct(w, h, tile);
    origins.lemma_multiset_has_no_duplicates();
    tiles.lemma_multiset_has_no_duplicates_conv();
    assert(tiles.take(tiles.len() as int) =~= tiles);
    lemma_clipped_pixels_are_distinct(tiles, w, h, tile, tiles.len() as int);
    assert forall|x: u32, y: u32| #[trigger] tasks.contains((x, y)) <==> x < w && y < h by {
        let p = (x, y);
        lemma_clipped_pixels(tiles, tile, w, h, p);
        if tasks.contains(p) {
            let i = choose|i: int|
                0 <= i < tiles.len() && #[trigger] clipped_tile(tiles[i], tile, w, h).contains(p);
            lemma_clipped_tile(tiles[i], tile, w, h, p);
        }
        if x < w && y < h {
            let cols = tiles_along(w as int, t);
            let rows = tiles_along(h as int, t);
            lemma_tiles_along(w as int, t);
            lemma_tiles_along(h as int, t);
            let cx = x as int / t;
            let cy = y as int / t;
            vstd::arithmetic::div_mod::lemma_div_is_ordered(x as int, w - 1, t);
            vstd::arithmetic::div_mod::lemma_div_is_ordered(y as int, h - 1, t);
            vstd::arithmetic::div_mod::lemma_div_pos_is_pos(x as int, t);
            vstd::arithmetic::div_mod::lemma_div_pos_is_pos(y as int, t);
            vstd::arithmetic::div_mod::lemma_fundamental_div_mod(x as int, t);
            vstd::arithmetic::div_mod::lemma_fundamental_div_mod(y as int, t);
            vstd::arithmetic::div_mod::lemma_mod_bound(x as int, t);
            vstd::arithmetic::div_mod::lemma_mod_bound(y as int, t);
            let k0 = cy * cols + cx;
            lemma_split(cy, cx, cols);
            assert(0 <= k0 < cols * rows) by (nonlinear_arith)
                requires
                    k0 == cy * cols + cx,
                    0 <= cx < cols,
                    0 <= cy < rows,
            ;
            assert(t * cx == cx * t && t * cy == cy * t) by (nonlinear_arith);
            let o = ((cx * t) as u32, (cy * t) as u32);
            assert(origins[k0] == o);
            assert(origins.contains(o));
            vstd::seq_lib::to_multiset_contains(origins, o);
            vstd::seq_lib::to_multiset_contains(tiles, o);
            let i = choose|i: int| 0 <= i < tiles.len() && tiles[i] == o;
            lemma_clipped_tile(o, tile, w, h, p);
            assert(clipped_tile(tiles[i], tile, w, h).contains(p));
        }
    }
    let all = image_pixels(w, h);
    assert(tasks.to_set() =~= all.to_set()) by {
        assert forall|p: (u32, u32)| tasks.contains(p) <==> all.contains(p) by {
            lemma_image(w, h, p);
            assert(tasks.contains((p.0, p.1)) <==> p.0 < w && p.1 < h);
        }
    }
    lemma_image(w, h, (0, 0));
    tasks.unique_seq_to_set();
    all.unique_seq_to_set();
}

} // verus!
