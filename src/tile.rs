use vstd::prelude::*;
use vstd::arithmetic::div_mod::{
    lemma_fundamental_div_mod,
    lemma_fundamental_div_mod_converse,
    lemma_mod_pos_bound,
};

verus! {

/// Widest tile, in pixels.
pub const MAX_TILE_WIDTH: usize = 64;

/// Tallest tile, in pixels.
pub const MAX_TILE_HEIGHT: usize = 64;

/// Samples per pixel that a worker renders before handing a tile back.
pub const SAMPLE_CHUNK_SIZE: usize = 20;

/// Global seed from which every sampler is derived.
pub const SEED: u32 = 123_456_789;

/// Side of a tile along an image side of `n` pixels: a quarter of the side,
/// at least one pixel and at most `max`.
pub open spec fn tile_extent(n: int, max: int) -> int {
    if n / 4 >= max {
        max
    } else if n / 4 >= 1 {
        n / 4
    } else {
        1
    }
}

/// Number of tiles of side `ext` needed to cover `n` pixels.
pub open spec fn tiles_along(n: int, ext: int) -> int {
    n / ext + if n % ext != 0 {
        1int
    } else {
        0int
    }
}

/// Tile width of an image `width` pixels wide.
pub open spec fn tile_width_of(width: int) -> int {
    tile_extent(width, MAX_TILE_WIDTH as int)
}

/// Tile height of an image `height` pixels high.
pub open spec fn tile_height_of(height: int) -> int {
    tile_extent(height, MAX_TILE_HEIGHT as int)
}

/// Tiles per row.
pub open spec fn tiles_across(width: int) -> int {
    tiles_along(width, tile_width_of(width))
}

/// Tiles per column.
pub open spec fn tiles_down(height: int) -> int {
    tiles_along(height, tile_height_of(height))
}

/// Number of tiles of a `width` x `height` image.
pub open spec fn num_tiles_spec(width: int, height: int) -> int {
    tiles_across(width) * tiles_down(height)
}

/// Index of the tile that holds pixel `(x, y)`.
pub open spec fn tile_index_of(width: int, height: int, x: int, y: int) -> int {
    (y / tile_height_of(height)) * tiles_across(width) + x / tile_width_of(width)
}

/// Tile (row-major) number `idx`: its rectangle is clipped to the image.
pub open spec fn tile_spec(width: int, height: int, spp: int, idx: int) -> TileData {
    let tw = tile_width_of(width);
    let th = tile_height_of(height);
    let nx = tiles_across(width);
    let px = (idx % nx) * tw;
    let py = (idx / nx) * th;
    let w = if width - px < tw {
        width - px
    } else {
        tw
    };
    let h = if height - py < th {
        height - py
    } else {
        th
    };
    let dx = px + w / 2 - width / 2;
    let dy = py + h / 2 - height / 2;
    TileData {
        idx: idx as usize,
        width: w as usize,
        height: h as usize,
        pixel_x: px as usize,
        pixel_y: py as usize,
        distance_sq_from_center: (dx * dx + dy * dy) as u128,
        remaining_samples: spp as usize,
    }
}

/// A rectangle of the image together with how many samples per pixel it
/// still needs.
#[derive(Debug, Copy, Clone, PartialEq, Eq, Structural)]
pub struct TileData {
    pub idx: usize,
    pub width: usize,
    pub height: usize,
    pub pixel_x: usize,
    pub pixel_y: usize,
    /// Squared distance, in pixels, from the tile's centre to the image's.
    pub distance_sq_from_center: u128,
    pub remaining_samples: usize,
}

impl TileData {
    /// Does the tile's rectangle hold pixel `(x, y)`?
    pub open spec fn contains(&self, x: int, y: int) -> bool {
        &&& self.pixel_x <= x < self.pixel_x + self.width
        &&& self.pixel_y <= y < self.pixel_y + self.height
    }

    /// Number of pixels of the tile.
    pub open spec fn area(&self) -> int {
        self.width * self.height
    }
}

proof fn lemma_extent_bounds(n: int, max: int)
    requires
        max >= 1,
    ensures
        1 <= tile_extent(n, max) <= max,
        n >= 1 ==> tile_extent(n, max) <= n,
{
}

/// `x` lies in band number `q` of width `d` exactly when `x / d == q`.
proof fn lemma_div_band(x: int, d: int, q: int)
    requires
        x >= 0,
        d >= 1,
        q >= 0,
    ensures
        (x / d == q) <==> (q * d <= x < q * d + d),
{
    lemma_fundamental_div_mod(x, d);
    lemma_mod_pos_bound(x, d);
    if q * d <= x < q * d + d {
        lemma_fundamental_div_mod_converse(x, d, q, x - q * d);
    }
    if x / d == q {
        assert(d * (x / d) == q * d) by (nonlinear_arith)
            requires
                x / d == q,
        ;
    }
}

/// Pixel coordinates below `n` fall in one of the `tiles_along(n, ext)` bands,
/// and every band starts inside the image.
proof fn lemma_tiles_along(n: int, ext: int, x: int, t: int)
    requires
        n >= 0,
        ext >= 1,
    ensures
        0 <= x < n ==> x / ext < tiles_along(n, ext),
        0 <= t < tiles_along(n, ext) ==> t * ext < n,
        n >= 1 ==> tiles_along(n, ext) <= n,
        tiles_along(n, ext) >= 0,
{
    lemma_fundamental_div_mod(n, ext);
    lemma_mod_pos_bound(n, ext);
    if 0 <= x < n {
        assert(x / ext <= n / ext) by {
            vstd::arithmetic::div_mod::lemma_div_is_ordered(x, n, ext);
        }
        if x / ext == n / ext {
            lemma_fundamental_div_mod(x, ext);
            lemma_mod_pos_bound(x, ext);
            assert(n % ext != 0);
        }
    }
    if 0 <= t < tiles_along(n, ext) {
        if t < n / ext {
            assert(t * ext <= (n / ext - 1) * ext) by (nonlinear_arith)
                requires
                    t <= n / ext - 1,
                    ext >= 1,
            ;
            assert((n / ext - 1) * ext == ext * (n / ext) - ext) by (nonlinear_arith);
        } else {
            assert(t == n / ext);
            assert(t * ext == ext * (n / ext)) by (nonlinear_arith)
                requires
                    t == n / ext,
            ;
        }
    }
    if n >= 1 {
        assert(n / ext <= n) by {
            vstd::arithmetic::div_mod::lemma_div_is_ordered_by_denominator(n, 1, ext);
        }
        if n % ext != 0 {
            assert(ext * (n / ext) <= n - 1);
            assert(n / ext <= ext * (n / ext)) by (nonlinear_arith)
                requires
                    ext >= 1,
                    n / ext >= 0,
            ;
        }
    }
    vstd::arithmetic::div_mod::lemma_div_pos_is_pos(n, ext);
}

/// The tiles partition the image: each pixel lies in exactly one tile, the
/// one that `tile_index_of` names.
pub proof fn lemma_tiles_partition_image(
    width: usize,
    height: usize,
    spp: usize,
    x: int,
    y: int,
    idx: usize,
)
    requires
        0 <= x < width,
        0 <= y < height,
        idx < num_tiles_spec(width as int, height as int),
    ensures
        0 <= tile_index_of(width as int, height as int, x, y) < num_tiles_spec(
            width as int,
            height as int,
        ),
        tile_spec(width as int, height as int, spp as int, idx as int).contains(x, y) <==> idx
            == tile_index_of(width as int, height as int, x, y),
{
    let width = width as int;
    let height = height as int;
    let idx = idx as int;
    let spp = spp as int;
    let tw = tile_width_of(width);
    let th = tile_height_of(height);
    let nx = tiles_across(width);
    let ny = tiles_down(height);
    lemma_extent_bounds(width, MAX_TILE_WIDTH as int);
    lemma_extent_bounds(height, MAX_TILE_HEIGHT as int);
    lemma_tiles_along(width, tw, x, 0);
    lemma_tiles_along(height, th, y, 0);
    let tx = x / tw;
    let ty = y / th;
    vstd::arithmetic::div_mod::lemma_div_pos_is_pos(x, tw);
    vstd::arithmetic::div_mod::lemma_div_pos_is_pos(y, th);
    assert(nx >= 1);
    // the pixel's tile index is in range
    assert(ty * nx + tx < nx * ny) by (nonlinear_arith)
        requires
            0 <= tx < nx,
            0 <= ty < ny,
    ;
    // decompose idx
    lemma_fundamental_div_mod(idx, nx);
    lemma_mod_pos_bound(idx, nx);
    let ix = idx % nx;
    let iy = idx / nx;
    vstd::arithmetic::div_mod::lemma_div_pos_is_pos(idx, nx);
    assert(iy < ny) by {
        if iy >= ny {
            assert(nx * iy >= nx * ny) by (nonlinear_arith)
                requires
                    iy >= ny,
                    nx >= 1,
            ;
        }
    }
    lemma_tiles_along(width, tw, 0, ix);
    lemma_tiles_along(height, th, 0, iy);
    let t = tile_spec(width, height, spp, idx);
    assert(t.pixel_x == ix * tw);
    assert(t.pixel_y == iy * th);
    assert(ix * tw >= 0 && iy * th >= 0) by (nonlinear_arith)
        requires
            ix >= 0,
            iy >= 0,
            tw >= 1,
            th >= 1,
    ;
    lemma_div_band(x, tw, ix);
    lemma_div_band(y, th, iy);
    assert((ix <= x / tw <= ix) <==> (t.pixel_x <= x < t.pixel_x + t.width));
    assert((iy <= y / th <= iy) <==> (t.pixel_y <= y < t.pixel_y + t.height));
    if idx == ty * nx + tx {
        lemma_fundamental_div_mod_converse(idx, nx, ty, tx);
    }
    if ix == tx && iy == ty {
        assert(idx == nx * iy + ix);
        assert(nx * iy == iy * nx) by (nonlinear_arith);
    }
}

/// There are no more tiles than pixels.
proof fn lemma_num_tiles_bound(width: int, height: int)
    requires
        width >= 0,
        height >= 0,
    ensures
        0 <= num_tiles_spec(width, height) <= width * height,
{
    let tw = tile_width_of(width);
    let th = tile_height_of(height);
    let nx = tiles_across(width);
    let ny = tiles_down(height);
    lemma_extent_bounds(width, MAX_TILE_WIDTH as int);
    lemma_extent_bounds(height, MAX_TILE_HEIGHT as int);
    lemma_tiles_along(width, tw, 0, 0);
    lemma_tiles_along(height, th, 0, 0);
    if width == 0 {
        assert(nx == 0);
    }
    if height == 0 {
        assert(ny == 0);
    }
    assert(0 <= nx * ny <= width * height) by (nonlinear_arith)
        requires
            0 <= nx <= width,
            0 <= ny <= height,
    ;
}

/// The tile that holds a pixel of the image is one of the image's tiles.
proof fn lemma_tile_index_in_range(width: int, height: int, x: int, y: int)
    requires
        0 <= x < width,
        0 <= y < height,
    ensures
        0 <= tile_index_of(width, height, x, y) < num_tiles_spec(width, height),
{
    let tw = tile_width_of(width);
    let th = tile_height_of(height);
    let nx = tiles_across(width);
    let ny = tiles_down(height);
    lemma_extent_bounds(width, MAX_TILE_WIDTH as int);
    lemma_extent_bounds(height, MAX_TILE_HEIGHT as int);
    lemma_tiles_along(width, tw, x, 0);
    lemma_tiles_along(height, th, y, 0);
    let tx = x / tw;
    let ty = y / th;
    vstd::arithmetic::div_mod::lemma_div_pos_is_pos(x, tw);
    vstd::arithmetic::div_mod::lemma_div_pos_is_pos(y, th);
    assert(0 <= ty * nx + tx < nx * ny) by (nonlinear_arith)
        requires
            0 <= tx < nx,
            0 <= ty < ny,
    ;
}

impl TileData {
    /// Tile number `idx` of a `width` x `height` image that needs `spp`
    /// samples per pixel, or `None` past the last tile.
    pub fn new(width: usize, height: usize, spp: usize, idx: usize) -> (r: Option<TileData>)
        requires
            width as int * height as int <= usize::MAX,
        ensures
            idx < num_tiles_spec(width as int, height as int) <==> r.is_some(),
            r.is_some() ==> r == Some(tile_spec(width as int, height as int, spp as int, idx as int)),
    {
        let tw = tile_extent_exec(width, MAX_TILE_WIDTH);
        let th = tile_extent_exec(height, MAX_TILE_HEIGHT);
        let nx = tiles_along_exec(width, tw);
        let ny = tiles_along_exec(height, th);
        proof {
            lemma_extent_bounds(width as int, MAX_TILE_WIDTH as int);
            lemma_extent_bounds(height as int, MAX_TILE_HEIGHT as int);
            lemma_tiles_along(width as int, tw as int, 0, 0);
            lemma_tiles_along(height as int, th as int, 0, 0);
            assert(nx as int * ny as int <= width as int * height as int) by (nonlinear_arith)
                requires
                    0 <= nx <= width || width == 0 && nx == 0,
                    0 <= ny <= height || height == 0 && ny == 0,
            ;
        }
        let num_tiles: usize = nx * ny;
        if idx >= num_tiles {
            return None;
        }
        proof {
            lemma_fundamental_div_mod(idx as int, nx as int);
            lemma_mod_pos_bound(idx as int, nx as int);
            vstd::arithmetic::div_mod::lemma_div_pos_is_pos(idx as int, nx as int);
            let iy = idx as int / nx as int;
            if iy >= ny {
                assert(nx * iy >= nx * ny) by (nonlinear_arith)
                    requires
                        iy >= ny,
                        nx >= 1,
                ;
            }
            lemma_tiles_along(width as int, tw as int, 0, idx as int % nx as int);
            lemma_tiles_along(height as int, th as int, 0, iy);
        }
        let tile_x = idx % nx;
        let tile_y = idx / nx;
        let pixel_x: usize = tile_x * tw;
        let pixel_y: usize = tile_y * th;
        let w: usize = if width - pixel_x < tw {
            width - pixel_x
        } else {
            tw
        };
        let h: usize = if height - pixel_y < th {
            height - pixel_y
        } else {
            th
        };
        let dx: i128 = (pixel_x + w / 2) as i128 - (width / 2) as i128;
        let dy: i128 = (pixel_y + h / 2) as i128 - (height / 2) as i128;
        proof {
            assert(dx * dx <= 0x3fff_ffff_ffff_ffff_0000_0000_0000_0001) by (nonlinear_arith)
                requires
                    -0x7fff_ffff_ffff_ffff <= dx <= 0x7fff_ffff_ffff_ffff,
            ;
            assert(dy * dy <= 0x3fff_ffff_ffff_ffff_0000_0000_0000_0001) by (nonlinear_arith)
                requires
                    -0x7fff_ffff_ffff_ffff <= dy <= 0x7fff_ffff_ffff_ffff,
            ;
            assert(dx * dx >= 0 && dy * dy >= 0) by (nonlinear_arith);
        }
        let dist: u128 = (dx * dx + dy * dy) as u128;
        Some(
            TileData {
                idx,
                width: w,
                height: h,
                pixel_x,
                pixel_y,
                distance_sq_from_center: dist,
                remaining_samples: spp,
            },
        )
    }
}

fn tile_extent_exec(n: usize, max: usize) -> (r: usize)
    requires
        max >= 1,
    ensures
        r == tile_extent(n as int, max as int),
{
    if n / 4 >= max {
        max
    } else if n / 4 >= 1 {
        n / 4
    } else {
        1
    }
}

fn tiles_along_exec(n: usize, ext: usize) -> (r: usize)
    requires
        ext >= 1,
    ensures
        r == tiles_along(n as int, ext as int),
{
    proof {
        lemma_tiles_along(n as int, ext as int, 0, 0);
        vstd::arithmetic::div_mod::lemma_div_is_ordered_by_denominator(n as int, 1, ext as int);
    }
    if n % ext != 0 {
        n / ext + 1
    } else {
        n / ext
    }
}

/// Is tile `a` served before tile `b`? Tiles that need more samples come
/// first; among equals, the one nearer the image centre.
pub open spec fn served_before(a: TileData, b: TileData) -> bool {
    a.remaining_samples > b.remaining_samples || (a.remaining_samples == b.remaining_samples
        && a.distance_sq_from_center < b.distance_sq_from_center)
}

impl TileData {
    /// Is this tile served before `other`?
    pub fn has_priority_over(&self, other: &TileData) -> (r: bool)
        ensures
            r == served_before(*self, *other),
    {
        self.remaining_samples > other.remaining_samples || (self.remaining_samples
            == other.remaining_samples && self.distance_sq_from_center
            < other.distance_sq_from_center)
    }

    /// Takes the next chunk of at most `chunk` samples per pixel off the
    /// tile and returns its size.
    pub fn take_chunk(&mut self, chunk: usize) -> (r: usize)
        ensures
            r == if old(self).remaining_samples < chunk {
                old(self).remaining_samples
            } else {
                chunk
            },
            *final(self) == (TileData {
                remaining_samples: (old(self).remaining_samples - r) as usize,
                ..*old(self)
            }),
    {
        let n = if self.remaining_samples < chunk {
            self.remaining_samples
        } else {
            chunk
        };
        self.remaining_samples = self.remaining_samples - n;
        n
    }

    /// Image coordinates of the tile's pixel number `i` (row-major).
    pub fn pixel_of(&self, i: usize) -> (r: (usize, usize))
        requires
            self.width > 0,
            self.pixel_x + self.width <= usize::MAX,
            self.pixel_y + self.height <= usize::MAX,
            i < self.width * self.height,
        ensures
            r.0 == self.pixel_x + i as int % self.width as int,
            r.1 == self.pixel_y + i as int / self.width as int,
            self.contains(r.0 as int, r.1 as int),
    {
        proof {
            lemma_mod_pos_bound(i as int, self.width as int);
            vstd::arithmetic::div_mod::lemma_div_pos_is_pos(i as int, self.width as int);
            vstd::arithmetic::div_mod::lemma_div_is_ordered(
                i as int,
                self.width * self.height - 1,
                self.width as int,
            );
            lemma_fundamental_div_mod(i as int, self.width as int);
            let q = i as int / self.width as int;
            if q >= self.height {
                assert(self.width * q >= self.width * self.height) by (nonlinear_arith)
                    requires
                        q >= self.height,
                        self.width > 0,
                ;
            }
        }
        (self.pixel_x + i % self.width, self.pixel_y + i / self.width)
    }
}

/// The integrator calls of one chunk: every pixel of `tile` (row-major) with
/// each of the sample indices `first_sample .. first_sample + samples`, the
/// samples of a pixel one after another.
pub open spec fn chunk_call(tile: TileData, first_sample: int, samples: int, j: int) -> (
    usize,
    usize,
    usize,
) {
    let i = j / samples;
    (
        (tile.pixel_x + i % tile.width as int) as usize,
        (tile.pixel_y + i / tile.width as int) as usize,
        (first_sample + j % samples) as usize,
    )
}

impl TileData {
    /// The `(x, y, sample index)` triples at which a chunk of `samples`
    /// samples per pixel, starting at sample `first_sample`, calls the
    /// integrator: `width * height * samples` calls, each pixel of the tile
    /// with each sample index of the chunk exactly once.
    pub fn chunk_calls(&self, first_sample: usize, samples: usize) -> (r: Vec<(usize, usize, usize)>)
        requires
            self.width > 0,
            self.pixel_x + self.width <= usize::MAX,
            self.pixel_y + self.height <= usize::MAX,
            first_sample + samples <= usize::MAX,
            self.width * self.height <= usize::MAX,
            self.width * self.height * samples <= usize::MAX,
        ensures
            r@.len() == self.width * self.height * samples,
            forall|j: int|
                0 <= j < r@.len() ==> #[trigger] r@[j] == chunk_call(
                    *self,
                    first_sample as int,
                    samples as int,
                    j,
                ),
    {
        let n = self.width * self.height;
        proof {
            assert(n * samples <= usize::MAX);
        }
        let mut calls: Vec<(usize, usize, usize)> = Vec::new();
        let mut i: usize = 0;
        while i < n
            invariant
                n == self.width * self.height,
                self.width > 0,
                self.pixel_x + self.width <= usize::MAX,
                self.pixel_y + self.height <= usize::MAX,
                first_sample + samples <= usize::MAX,
                n * samples <= usize::MAX,
                0 <= i <= n,
                calls@.len() == i * samples,
                forall|j: int|
                    0 <= j < calls@.len() ==> #[trigger] calls@[j] == chunk_call(
                        *self,
                        first_sample as int,
                        samples as int,
                        j,
                    ),
            decreases n - i,
        {
            let (x, y) = self.pixel_of(i);
            let mut k: usize = 0;
            while k < samples
                invariant
                    n == self.width * self.height,
                    self.width > 0,
                    first_sample + samples <= usize::MAX,
                    n * samples <= usize::MAX,
                    0 <= i < n,
                    0 <= k <= samples,
                    x == self.pixel_x + i as int % self.width as int,
                    y == self.pixel_y + i as int / self.width as int,
                    calls@.len() == i * samples + k,
                    forall|j: int|
                        0 <= j < calls@.len() ==> #[trigger] calls@[j] == chunk_call(
                            *self,
                            first_sample as int,
                            samples as int,
                            j,
                        ),
                decreases samples - k,
            {
                proof {
                    let j = i * samples + k;
                    lemma_fundamental_div_mod_converse(j, samples as int, i as int, k as int);
                    assert(i * samples + k < n * samples) by (nonlinear_arith)
                        requires
                            i < n,
                            k < samples,
                    ;
                }
                calls.push((x, y, first_sample + k));
                k = k + 1;
            }
            proof {
                assert((i + 1) * samples == i * samples + samples) by (nonlinear_arith);
            }
            i = i + 1;
        }
        calls
    }
}

/// A chunk of one sample per pixel, starting at sample 0, calls the
/// integrator exactly once for each pixel of the tile, with sample index 0.
pub proof fn lemma_single_sample_chunk_calls_each_pixel_once(tile: TileData, x: int, y: int)
    requires
        tile.width > 0,
        tile.pixel_x + tile.width <= usize::MAX,
        tile.pixel_y + tile.height <= usize::MAX,
        tile.contains(x, y),
    ensures
        exists|j: int|
            0 <= j < tile.width * tile.height && #[trigger] chunk_call(tile, 0, 1, j) == (
                x as usize,
                y as usize,
                0usize,
            ),
        forall|a: int, b: int|
            0 <= a < tile.width * tile.height && 0 <= b < tile.width * tile.height && #[trigger] chunk_call(tile, 0, 1, a)
                == (x as usize, y as usize, 0usize) && #[trigger] chunk_call(tile, 0, 1, b) == (
                x as usize,
                y as usize,
                0usize,
            ) ==> a == b,
{
    let w = tile.width as int;
    let h = tile.height as int;
    let dx = x - tile.pixel_x;
    let dy = y - tile.pixel_y;
    let j = dy * w + dx;
    lemma_fundamental_div_mod_converse(j, w, dy, dx);
    lemma_fundamental_div_mod_converse(j, 1, j, 0);
    assert(j < w * h) by (nonlinear_arith)
        requires
            0 <= dx < w,
            0 <= dy < h,
            j == dy * w + dx,
    ;
    assert(0 <= j) by (nonlinear_arith)
        requires
            0 <= dx,
            0 <= dy,
            w > 0,
            j == dy * w + dx,
    ;
    assert(chunk_call(tile, 0, 1, j) == (x as usize, y as usize, 0usize));
    assert forall|a: int, b: int|
        0 <= a < w * h && 0 <= b < w * h && #[trigger] chunk_call(tile, 0, 1, a) == (
            x as usize,
            y as usize,
            0usize,
        ) && #[trigger] chunk_call(tile, 0, 1, b) == (x as usize, y as usize, 0usize) implies a
        == b by {
        lemma_fundamental_div_mod_converse(a, 1, a, 0);
        lemma_fundamental_div_mod_converse(b, 1, b, 0);
        lemma_fundamental_div_mod(a, w);
        lemma_fundamental_div_mod(b, w);
        lemma_mod_pos_bound(a, w);
        lemma_mod_pos_bound(b, w);
        vstd::arithmetic::div_mod::lemma_div_pos_is_pos(a, w);
        vstd::arithmetic::div_mod::lemma_div_pos_is_pos(b, w);
        vstd::arithmetic::div_mod::lemma_div_is_ordered(a, w * h - 1, w);
        vstd::arithmetic::div_mod::lemma_div_is_ordered(b, w * h - 1, w);
        assert((w * h - 1) / w < h) by {
            if (w * h - 1) / w >= h {
                lemma_fundamental_div_mod(w * h - 1, w);
                assert(w * ((w * h - 1) / w) >= w * h) by (nonlinear_arith)
                    requires
                        (w * h - 1) / w >= h,
                        w > 0,
                ;
                lemma_mod_pos_bound(w * h - 1, w);
            }
        }
        assert(a % w == b % w);
        assert(a / w == b / w);
    }
}

/// The shared queue of unfinished tiles.
pub struct TileQueue {
    pub tiles: Vec<TileData>,
}

impl TileQueue {
    /// The tiles in the queue.
    pub open spec fn view(&self) -> Seq<TileData> {
        self.tiles@
    }

    /// An empty queue.
    pub fn new() -> (r: TileQueue)
        ensures
            r@ == Seq::<TileData>::empty(),
    {
        TileQueue { tiles: Vec::new() }
    }

    /// The queue of every tile of a `width` x `height` image, each needing
    /// `spp` samples per pixel.
    pub fn for_image(width: usize, height: usize, spp: usize) -> (r: TileQueue)
        requires
            width as int * height as int <= usize::MAX,
        ensures
            r@.len() == num_tiles_spec(width as int, height as int),
            forall|i: int|
                0 <= i < r@.len() ==> #[trigger] r@[i] == tile_spec(
                    width as int,
                    height as int,
                    spp as int,
                    i,
                ),
    {
        let mut tiles: Vec<TileData> = Vec::new();
        let mut idx: usize = 0;
        proof {
            lemma_num_tiles_bound(width as int, height as int);
        }
        loop
            invariant
                width as int * height as int <= usize::MAX,
                num_tiles_spec(width as int, height as int) <= usize::MAX,
                idx == tiles@.len(),
                idx <= num_tiles_spec(width as int, height as int),
                forall|i: int|
                    0 <= i < tiles@.len() ==> #[trigger] tiles@[i] == tile_spec(
                        width as int,
                        height as int,
                        spp as int,
                        i,
                    ),
            ensures
                idx == num_tiles_spec(width as int, height as int),
                idx == tiles@.len(),
                forall|i: int|
                    0 <= i < tiles@.len() ==> #[trigger] tiles@[i] == tile_spec(
                        width as int,
                        height as int,
                        spp as int,
                        i,
                    ),
            decreases num_tiles_spec(width as int, height as int) - idx,
        {
            match TileData::new(width, height, spp, idx) {
                Some(t) => {
                    tiles.push(t);
                    idx = idx + 1;
                },
                None => {
                    break ;
                },
            }
        }
        TileQueue { tiles }
    }

    /// Number of tiles waiting.
    pub fn len(&self) -> (r: usize)
        ensures
            r == self@.len(),
    {
        self.tiles.len()
    }

    /// Is no tile waiting?
    pub fn is_empty(&self) -> (r: bool)
        ensures
            r == (self@.len() == 0),
    {
        self.tiles.len() == 0
    }

    /// Puts a tile (back) in the queue.
    pub fn push(&mut self, tile: TileData)
        ensures
            final(self)@ == old(self)@.push(tile),
    {
        self.tiles.push(tile);
    }

    /// Hands a tile back if it still needs samples; returns whether it did.
    pub fn requeue(&mut self, tile: TileData) -> (r: bool)
        ensures
            r == (tile.remaining_samples > 0),
            final(self)@ == if r {
                old(self)@.push(tile)
            } else {
                old(self)@
            },
    {
        if tile.remaining_samples > 0 {
            self.tiles.push(tile);
            true
        } else {
            false
        }
    }

    /// Takes out a tile that no other waiting tile is served before, or
    /// `None` when the queue is empty.
    pub fn pop(&mut self) -> (r: Option<TileData>)
        ensures
            old(self)@.len() == 0 <==> r.is_none(),
            r.is_none() ==> final(self)@ == old(self)@,
            r.is_some() ==> exists|k: int|
                0 <= k < old(self)@.len() && old(self)@[k] == r.unwrap() && final(self)@
                    == old(self)@.remove(k),
            r.is_some() ==> forall|j: int|
                0 <= j < old(self)@.len() ==> !served_before(#[trigger] old(self)@[j], r.unwrap()),
    {
        let n = self.tiles.len();
        if n == 0 {
            return None;
        }
        let mut best: usize = 0;
        let mut i: usize = 1;
        while i < n
            invariant
                n == self.tiles@.len(),
                self.tiles@ == old(self)@,
                0 <= best < i <= n,
                forall|j: int| 0 <= j < i ==> !served_before(#[trigger] self.tiles@[j], self.tiles@[best as int]),
            decreases n - i,
        {
            if self.tiles[i].has_priority_over(&self.tiles[best]) {
                best = i;
            }
            i = i + 1;
        }
        let t = self.tiles.remove(best);
        Some(t)
    }
}

/// Row-major positions of two pixels of a row of `width` agree only when the
/// pixels do.
proof fn lemma_row_major_unique(width: int, x1: int, y1: int, x2: int, y2: int)
    requires
        0 <= x1 < width,
        0 <= x2 < width,
        0 <= y1,
        0 <= y2,
    ensures
        (y1 * width + x1 == y2 * width + x2) <==> (x1 == x2 && y1 == y2),
{
    if y1 * width + x1 == y2 * width + x2 {
        lemma_fundamental_div_mod_converse(y1 * width + x1, width, y1, x1);
        lemma_fundamental_div_mod_converse(y2 * width + x2, width, y2, x2);
    }
}

/// Value of pixel `(x, y)` of a frame `width` pixels wide after `tile`'s
/// pixels were written over `old_frame`.
pub open spec fn framed_pixel<P>(
    tile: TileData,
    old_frame: Seq<P>,
    width: int,
    pixels: Seq<P>,
    x: int,
    y: int,
) -> P {
    if tile.contains(x, y) {
        pixels[(y - tile.pixel_y) * tile.width + (x - tile.pixel_x)]
    } else {
        old_frame[y * width + x]
    }
}

impl TileData {
    /// Writes the tile's pixels (row-major, `width * height` of them) into a
    /// frame `image_width` pixels wide, leaving every other pixel alone.
    pub fn write_to_frame<P: Copy>(&self, frame: &mut Vec<P>, image_width: usize, pixels: &Vec<P>)
        requires
            self.pixel_x + self.width <= image_width,
            (self.pixel_y + self.height) * image_width <= old(frame)@.len(),
            pixels@.len() == self.width * self.height,
        ensures
            final(frame)@.len() == old(frame)@.len(),
            forall|x: int, y: int|
                0 <= x < image_width && 0 <= y && y * image_width + x < old(frame)@.len()
                    ==> #[trigger] final(frame)@[y * image_width + x] == framed_pixel(
                    *self,
                    old(frame)@,
                    image_width as int,
                    pixels@,
                    x,
                    y,
                ),
    {
        let ghost old_frame = frame@;
        let flen = frame.len();
        let plen = pixels.len();
        let w = self.width;
        let h = self.height;
        let iw = image_width;
        let mut r: usize = 0;
        while r < h
            invariant
                0 <= r <= h,
                w == self.width,
                h == self.height,
                iw == image_width,
                self.pixel_x + w <= iw,
                (self.pixel_y + h) * iw <= old_frame.len(),
                pixels@.len() == w * h,
                frame@.len() == old_frame.len(),
                flen == old_frame.len(),
                plen == w * h,
                forall|x: int, y: int|
                    0 <= x < iw && 0 <= y && y * iw + x < old_frame.len()
                        ==> #[trigger] frame@[y * iw + x] == if self.contains(x, y) && y
                        < self.pixel_y + r {
                        framed_pixel(*self, old_frame, iw as int, pixels@, x, y)
                    } else {
                        old_frame[y * iw + x]
                    },
            decreases h - r,
        {
            let mut c: usize = 0;
            while c < w
                invariant
                    0 <= r < h,
                    0 <= c <= w,
                    w == self.width,
                    h == self.height,
                    iw == image_width,
                    self.pixel_x + w <= iw,
                    (self.pixel_y + h) * iw <= old_frame.len(),
                    pixels@.len() == w * h,
                    frame@.len() == old_frame.len(),
                    flen == old_frame.len(),
                    plen == w * h,
                    forall|x: int, y: int|
                        0 <= x < iw && 0 <= y && y * iw + x < old_frame.len()
                            ==> #[trigger] frame@[y * iw + x] == if self.contains(x, y) && (y
                            < self.pixel_y + r || (y == self.pixel_y + r && x < self.pixel_x
                            + c)) {
                            framed_pixel(*self, old_frame, iw as int, pixels@, x, y)
                        } else {
                            old_frame[y * iw + x]
                        },
                decreases w - c,
            {
                proof {
                    assert(self.pixel_y + h <= (self.pixel_y + h) * iw) by (nonlinear_arith)
                        requires
                            iw >= 1,
                            self.pixel_y + h >= 0,
                    ;
                }
                let row = self.pixel_y + r;
                let col = self.pixel_x + c;
                proof {
                    assert(row * iw + col < (self.pixel_y + h) * iw) by (nonlinear_arith)
                        requires
                            row < self.pixel_y + h,
                            col < iw,
                    ;
                    assert(r * w + c < w * h) by (nonlinear_arith)
                        requires
                            r < h,
                            c < w,
                    ;
                }
                let k = row * iw + col;
                let v = pixels[r * w + c];
                let ghost before = frame@;
                frame.set(k, v);
                proof {
                    assert forall|x: int, y: int|
                        0 <= x < iw && 0 <= y && y * iw + x < old_frame.len() implies #[trigger] frame@[y * iw + x] == if self.contains(x, y) && (y
                            < self.pixel_y + r || (y == self.pixel_y + r && x < self.pixel_x
                            + c + 1)) {
                            framed_pixel(*self, old_frame, iw as int, pixels@, x, y)
                        } else {
                            old_frame[y * iw + x]
                        } by {
                        lemma_row_major_unique(iw as int, x, y, col as int, row as int);
                        assert(before[y * iw + x] == old_frame[y * iw + x] || self.contains(x, y));
                    }
                }
                c = c + 1;
            }
            r = r + 1;
        }
    }
}

/// Work still held by a queue: one hand-back per tile plus its samples.
pub open spec fn pending(s: Seq<TileData>) -> int
    decreases s.len(),
{
    if s.len() == 0 {
        0
    } else {
        pending(s.drop_last()) + s.last().remaining_samples + 1
    }
}

proof fn lemma_pending_nonneg(s: Seq<TileData>)
    ensures
        pending(s) >= s.len(),
    decreases s.len(),
{
    if s.len() > 0 {
        lemma_pending_nonneg(s.drop_last());
    }
}

proof fn lemma_pending_remove(s: Seq<TileData>, k: int)
    requires
        0 <= k < s.len(),
    ensures
        pending(s.remove(k)) == pending(s) - s[k].remaining_samples - 1,
    decreases s.len(),
{
    if k == s.len() - 1 {
        assert(s.remove(k) =~= s.drop_last());
    } else {
        lemma_pending_remove(s.drop_last(), k);
        assert(s.remove(k).drop_last() =~= s.drop_last().remove(k));
        assert(s.remove(k).last() == s.last());
    }
}

/// Does the log of a run hold a round of tile `idx`?
pub open spec fn logged(log: Seq<(usize, usize)>, idx: usize) -> bool {
    exists|j: int| 0 <= j < log.len() && (#[trigger] log[j]).0 == idx
}

/// Is `t` waiting in the queue `q`?
pub open spec fn queued(q: Seq<TileData>, t: TileData) -> bool {
    exists|k: int| 0 <= k < q.len() && #[trigger] q[k] == t
}

/// Samples per pixel that the rounds of `log` gave the tile with index `idx`.
pub open spec fn samples_of(log: Seq<(usize, usize)>, idx: usize) -> int
    decreases log.len(),
{
    if log.len() == 0 {
        0
    } else {
        samples_of(log.drop_last(), idx) + if log.last().0 == idx {
            log.last().1 as int
        } else {
            0
        }
    }
}

/// Samples per pixel that the tiles of `q` with index `idx` still need.
pub open spec fn queued_samples(q: Seq<TileData>, idx: usize) -> int
    decreases q.len(),
{
    if q.len() == 0 {
        0
    } else {
        queued_samples(q.drop_last(), idx) + if q.last().idx == idx {
            q.last().remaining_samples as int
        } else {
            0
        }
    }
}

proof fn lemma_queued_samples_remove(q: Seq<TileData>, k: int, idx: usize)
    requires
        0 <= k < q.len(),
    ensures
        queued_samples(q.remove(k), idx) == queued_samples(q, idx) - if q[k].idx == idx {
            q[k].remaining_samples as int
        } else {
            0
        },
    decreases q.len(),
{
    if k == q.len() - 1 {
        assert(q.remove(k) =~= q.drop_last());
    } else {
        lemma_queued_samples_remove(q.drop_last(), k, idx);
        assert(q.remove(k).drop_last() =~= q.drop_last().remove(k));
        assert(q.remove(k).last() == q.last());
    }
}

proof fn lemma_queued_samples_absent(q: Seq<TileData>, idx: usize)
    requires
        !has_idx(q, idx),
    ensures
        queued_samples(q, idx) == 0,
    decreases q.len(),
{
    if q.len() > 0 {
        assert(!has_idx(q.drop_last(), idx)) by {
            if has_idx(q.drop_last(), idx) {
                let i = choose|i: int| 0 <= i < q.drop_last().len() && (#[trigger] q.drop_last()[i]).idx == idx;
                assert(q[i].idx == idx);
            }
        }
        lemma_queued_samples_absent(q.drop_last(), idx);
        assert(q[q.len() - 1].idx != idx);
    }
}

/// In a queue of tiles with distinct indices, the samples queued under a
/// tile's index are that tile's remaining samples.
proof fn lemma_queued_samples_distinct(q: Seq<TileData>, i: int)
    requires
        distinct_tiles(q),
        0 <= i < q.len(),
    ensures
        queued_samples(q, q[i].idx) == q[i].remaining_samples,
    decreases q.len(),
{
    let d = q.drop_last();
    if i == q.len() - 1 {
        assert(!has_idx(d, q[i].idx)) by {
            if has_idx(d, q[i].idx) {
                let j = choose|j: int| 0 <= j < d.len() && (#[trigger] d[j]).idx == q[i].idx;
                assert(q[j].idx == q[i].idx);
            }
        }
        lemma_queued_samples_absent(d, q[i].idx);
    } else {
        assert(distinct_tiles(d)) by {
            assert forall|a: int, b: int| 0 <= a < d.len() && 0 <= b < d.len() && a != b implies (#[trigger] d[a]).idx != (#[trigger] d[b]).idx by {
                assert(d[a] == q[a] && d[b] == q[b]);
            }
        }
        assert(d[i] == q[i]);
        lemma_queued_samples_distinct(d, i);
        assert(q.last().idx != q[i].idx) by {
            assert(q.last() == q[q.len() - 1]);
        }
    }
}

/// Does some tile of `s` have index `idx`?
pub open spec fn has_idx(s: Seq<TileData>, idx: usize) -> bool {
    exists|i: int| 0 <= i < s.len() && (#[trigger] s[i]).idx == idx
}

/// Do the tiles of `s` have pairwise different indices?
pub open spec fn distinct_tiles(s: Seq<TileData>) -> bool {
    forall|a: int, b: int| 0 <= a < s.len() && 0 <= b < s.len() && a != b ==> (#[trigger] s[a]).idx != (#[trigger] s[b]).idx
}

/// Do the rounds of `log` name pairwise different tiles?
pub open spec fn distinct_rounds(log: Seq<(usize, usize)>) -> bool {
    forall|a: int, b: int| 0 <= a < log.len() && 0 <= b < log.len() && a != b ==> (#[trigger] log[a]).0 != (#[trigger] log[b]).0
}

/// Drives the queue with a single worker until it is empty: each round pops
/// the tile served first, takes a chunk of at most `chunk` samples per pixel
/// off it, and hands it back while samples remain. Returns, round by round,
/// the tile's index and the chunk's size.
///
/// When the tiles have distinct indices, each receives over its rounds
/// exactly the samples it needed. When every tile needs exactly one sample
/// per pixel, each tile is rendered exactly once, with one sample, and the
/// queue is empty after that single pass.
pub fn run_single_worker(queue: &mut TileQueue, chunk: usize) -> (log: Vec<(usize, usize)>)
    requires
        chunk >= 1,
    ensures
        final(queue)@.len() == 0,
        forall|j: int| 0 <= j < log@.len() ==> 1 <= (#[trigger] log@[j]).1 <= chunk,
        forall|j: int| 0 <= j < log@.len() ==> has_idx(old(queue)@, (#[trigger] log@[j]).0),
        (forall|i: int|
            0 <= i < old(queue)@.len() ==> (#[trigger] old(queue)@[i]).remaining_samples == 1)
            ==> {
            &&& log@.len() == old(queue)@.len()
            &&& forall|j: int| 0 <= j < log@.len() ==> (#[trigger] log@[j]).1 == 1
            &&& forall|i: int|
                0 <= i < old(queue)@.len() ==> logged(log@, (#[trigger] old(queue)@[i]).idx)
            &&& distinct_tiles(old(queue)@) ==> distinct_rounds(log@)
        },
        distinct_tiles(old(queue)@) ==> forall|i: int|
            0 <= i < old(queue)@.len() ==> samples_of(log@, (#[trigger] old(queue)@[i]).idx)
                == old(queue)@[i].remaining_samples,
{
    let ghost initial = queue@;
    let ghost single = forall|i: int|
        0 <= i < initial.len() ==> (#[trigger] initial[i]).remaining_samples == 1;
    let ghost distinct = distinct_tiles(initial);
    let mut log: Vec<(usize, usize)> = Vec::new();
    proof {
        lemma_pending_nonneg(queue@);
        assert forall|k: int| 0 <= k < queue@.len() implies has_idx(initial, (#[trigger] queue@[k]).idx) by {
            assert(initial[k].idx == queue@[k].idx);
        }
        if single {
            assert forall|i: int| 0 <= i < initial.len() implies logged(log@, (#[trigger] initial[i]).idx) || queued(queue@, initial[i]) by {
                assert(queue@[i] == initial[i]);
            }
        }
        if distinct {
            assert forall|i: int| 0 <= i < initial.len() implies samples_of(log@, (#[trigger] initial[i]).idx) + queued_samples(queue@, initial[i].idx) == initial[i].remaining_samples by {
                lemma_queued_samples_distinct(initial, i);
            }
        }
    }
    loop
        invariant
            chunk >= 1,
            forall|j: int| 0 <= j < log@.len() ==> 1 <= (#[trigger] log@[j]).1 <= chunk,
            forall|k: int| 0 <= k < queue@.len() ==> has_idx(initial, (#[trigger] queue@[k]).idx),
            forall|j: int| 0 <= j < log@.len() ==> has_idx(initial, (#[trigger] log@[j]).0),
            distinct ==> distinct_tiles(queue@),
            distinct ==> forall|i: int|
                0 <= i < initial.len() ==> samples_of(log@, (#[trigger] initial[i]).idx)
                    + queued_samples(queue@, initial[i].idx) == initial[i].remaining_samples,
            single && distinct ==> distinct_rounds(log@),
            single && distinct ==> forall|j: int, k: int|
                0 <= j < log@.len() && 0 <= k < queue@.len() ==> (#[trigger] log@[j]).0 != (#[trigger] queue@[k]).idx,
            single ==> log@.len() + queue@.len() == initial.len(),
            single ==> forall|j: int| 0 <= j < log@.len() ==> (#[trigger] log@[j]).1 == 1,
            single ==> forall|k: int|
                0 <= k < queue@.len() ==> (#[trigger] queue@[k]).remaining_samples == 1,
            single ==> forall|i: int|
                0 <= i < initial.len() ==> logged(log@, (#[trigger] initial[i]).idx) || queued(
                    queue@,
                    initial[i],
                ),
        ensures
            queue@.len() == 0,
            forall|j: int| 0 <= j < log@.len() ==> 1 <= (#[trigger] log@[j]).1 <= chunk,
            forall|j: int| 0 <= j < log@.len() ==> has_idx(initial, (#[trigger] log@[j]).0),
            distinct ==> forall|i: int|
                0 <= i < initial.len() ==> samples_of(log@, (#[trigger] initial[i]).idx)
                    == initial[i].remaining_samples,
            single && distinct ==> distinct_rounds(log@),
            single ==> log@.len() == initial.len(),
            single ==> forall|j: int| 0 <= j < log@.len() ==> (#[trigger] log@[j]).1 == 1,
            single ==> forall|i: int|
                0 <= i < initial.len() ==> logged(log@, (#[trigger] initial[i]).idx),
        decreases pending(queue@),
    {
        let ghost before = queue@;
        let ghost log_before = log@;
        match queue.pop() {
            None => {
                proof {
                    assert forall|i: int| 0 <= i < initial.len() && single implies logged(
                        log@,
                        (#[trigger] initial[i]).idx,
                    ) by {
                        if queued(queue@, initial[i]) {
                            let k = choose|k: int| 0 <= k < queue@.len() && #[trigger] queue@[k] == initial[i];
                        }
                    }
                }
                break ;
            },
            Some(tile) => {
                let ghost k = choose|k: int|
                    0 <= k < before.len() && before[k] == tile && queue@ == before.remove(k);
                proof {
                    lemma_pending_remove(before, k);
                    assert forall|idx: usize| #[trigger] queued_samples(queue@, idx) == queued_samples(before, idx) - if before[k].idx == idx {
                        before[k].remaining_samples as int
                    } else {
                        0
                    } by {
                        lemma_queued_samples_remove(before, k, idx);
                    }
                    assert(has_idx(initial, before[k].idx));
                    assert forall|kk: int| 0 <= kk < queue@.len() implies queue@[kk] == before[if kk < k { kk } else { kk + 1 }] by {}
                }
                let mut t = tile;
                let n = t.take_chunk(chunk);
                if n == 0 {
                    // a tile with nothing left is retired at once
                    proof {
                        assert(!single || before[k].remaining_samples == 1);
                        assert forall|kk: int| 0 <= kk < queue@.len() implies has_idx(initial, (#[trigger] queue@[kk]).idx) by {
                            assert(queue@[kk] == before[if kk < k { kk } else { kk + 1 }]);
                        }
                        if distinct {
                            assert forall|a: int, b: int| 0 <= a < queue@.len() && 0 <= b < queue@.len() && a != b implies (#[trigger] queue@[a]).idx != (#[trigger] queue@[b]).idx by {
                                assert(queue@[a] == before[if a < k { a } else { a + 1 }]);
                                assert(queue@[b] == before[if b < k { b } else { b + 1 }]);
                            }
                        }
                    }
                    queue.requeue(t);
                    proof {
                        lemma_pending_nonneg(queue@);
                    }
                    continue ;
                }
                log.push((t.idx, n));
                let ghost mid = queue@;
                queue.requeue(t);
                proof {
                    assert(mid.push(t).drop_last() =~= mid);
                    assert(log@.drop_last() =~= log_before);
                    if distinct {
                        assert forall|i: int| 0 <= i < initial.len() implies samples_of(log@, (#[trigger] initial[i]).idx)
                            + queued_samples(queue@, initial[i].idx) == initial[i].remaining_samples by {
                            assert(samples_of(log@, initial[i].idx) == samples_of(log_before, initial[i].idx) + if t.idx == initial[i].idx { n as int } else { 0 });
                            assert(queued_samples(mid, initial[i].idx) == queued_samples(before, initial[i].idx) - if before[k].idx == initial[i].idx {
                                before[k].remaining_samples as int
                            } else {
                                0
                            });
                        }
                    }
                    lemma_pending_nonneg(queue@);
                    assert forall|kk: int| 0 <= kk < mid.len() implies has_idx(initial, (#[trigger] mid[kk]).idx) by {
                        assert(mid[kk] == before[if kk < k { kk } else { kk + 1 }]);
                    }
                    assert forall|kk: int| 0 <= kk < queue@.len() implies has_idx(initial, (#[trigger] queue@[kk]).idx) by {
                        if kk < mid.len() {
                            assert(queue@[kk] == mid[kk]);
                        } else {
                            assert(queue@[kk].idx == before[k].idx);
                        }
                    }
                    assert forall|j: int| 0 <= j < log@.len() implies has_idx(initial, (#[trigger] log@[j]).0) by {
                        if j < log_before.len() {
                            assert(log@[j] == log_before[j]);
                        }
                    }
                    if distinct {
                        assert forall|a: int, b: int| 0 <= a < queue@.len() && 0 <= b < queue@.len() && a != b implies (#[trigger] queue@[a]).idx != (#[trigger] queue@[b]).idx by {
                            let ia = if a < mid.len() { if a < k { a } else { a + 1 } } else { k };
                            let ib = if b < mid.len() { if b < k { b } else { b + 1 } } else { k };
                            assert(queue@[a].idx == before[ia].idx);
                            assert(queue@[b].idx == before[ib].idx);
                        }
                    }
                    if single {
                        assert(before[k].remaining_samples == 1);
                        assert(t.remaining_samples == 0);
                        assert(queue@ == mid);
                        assert forall|kk: int| 0 <= kk < queue@.len() implies (
                        #[trigger] queue@[kk]).remaining_samples == 1 by {
                            assert(queue@[kk] == before[if kk < k { kk } else { kk + 1 }]);
                        }
                        if distinct {
                            assert forall|a: int, b: int| 0 <= a < log@.len() && 0 <= b < log@.len() && a != b implies (#[trigger] log@[a]).0 != (#[trigger] log@[b]).0 by {
                                let last = log_before.len() as int;
                                if a < last {
                                    assert(log@[a] == log_before[a]);
                                }
                                if b < last {
                                    assert(log@[b] == log_before[b]);
                                }
                                if a == last {
                                    assert(log_before[b].0 != before[k].idx);
                                }
                                if b == last {
                                    assert(log_before[a].0 != before[k].idx);
                                }
                            }
                            assert forall|j: int, kk: int| 0 <= j < log@.len() && 0 <= kk < queue@.len() implies (#[trigger] log@[j]).0 != (#[trigger] queue@[kk]).idx by {
                                let ik = if kk < k { kk } else { kk + 1 };
                                assert(queue@[kk] == before[ik]);
                                if j < log_before.len() {
                                    assert(log@[j] == log_before[j]);
                                } else {
                                    assert(before[k].idx != before[ik].idx);
                                }
                            }
                        }
                        assert forall|i: int| 0 <= i < initial.len() implies logged(
                            log@,
                            (#[trigger] initial[i]).idx,
                        ) || queued(queue@, initial[i]) by {
                            if logged(log_before, initial[i].idx) {
                                let j = choose|j: int|
                                    0 <= j < log_before.len() && (#[trigger] log_before[j]).0
                                        == initial[i].idx;
                                assert(log@[j] == log_before[j]);
                            } else {
                                let kk = choose|kk: int|
                                    0 <= kk < before.len() && #[trigger] before[kk] == initial[i];
                                if kk == k {
                                    assert(log@[log_before.len() as int].0 == initial[i].idx);
                                } else if kk < k {
                                    assert(queue@[kk] == initial[i]);
                                } else {
                                    assert(queue@[kk - 1] == initial[i]);
                                }
                            }
                        }
                    }
                }
            },
        }
    }
    log
}

/// With one sample per pixel and one worker, every pixel of the image is
/// rendered exactly once: the single pass over the queue of all tiles logs
/// exactly one round whose tile holds the pixel.
pub proof fn lemma_single_pass_renders_each_pixel_once(
    width: usize,
    height: usize,
    log: Seq<(usize, usize)>,
    x: int,
    y: int,
)
    requires
        width as int * height as int <= usize::MAX,
        0 <= x < width,
        0 <= y < height,
        forall|j: int| 0 <= j < log.len() ==> (#[trigger] log[j]).0 < num_tiles_spec(width as int, height as int),
        forall|i: int| 0 <= i < num_tiles_spec(width as int, height as int) ==> #[trigger] logged(log, i as usize),
        distinct_rounds(log),
    ensures
        exists|j: int| 0 <= j < log.len() && tile_spec(width as int, height as int, 1, (#[trigger] log[j]).0 as int).contains(x, y),
        forall|a: int, b: int|
            0 <= a < log.len() && 0 <= b < log.len()
                && tile_spec(width as int, height as int, 1, (#[trigger] log[a]).0 as int).contains(x, y)
                && tile_spec(width as int, height as int, 1, (#[trigger] log[b]).0 as int).contains(x, y) ==> a == b,
{
    let n = num_tiles_spec(width as int, height as int);
    let owner = tile_index_of(width as int, height as int, x, y);
    lemma_tile_index_in_range(width as int, height as int, x, y);
    lemma_num_tiles_bound(width as int, height as int);
    assert(logged(log, owner as usize));
    let j = choose|j: int| 0 <= j < log.len() && (#[trigger] log[j]).0 == owner as usize;
    lemma_tiles_partition_image(width, height, 1, x, y, log[j].0);
    assert forall|a: int, b: int|
        0 <= a < log.len() && 0 <= b < log.len()
            && tile_spec(width as int, height as int, 1, (#[trigger] log[a]).0 as int).contains(x, y)
            && tile_spec(width as int, height as int, 1, (#[trigger] log[b]).0 as int).contains(x, y) implies a == b by {
        lemma_tiles_partition_image(width, height, 1, x, y, log[a].0);
        lemma_tiles_partition_image(width, height, 1, x, y, log[b].0);
    }
}

/// What a worker gets when it asks the scheduler for work.
#[derive(Debug, Copy, Clone, PartialEq, Eq, Structural)]
pub enum Assignment {
    /// Render samples `first_sample .. first_sample + samples` of every pixel
    /// of this tile, whose remaining samples already exclude the chunk, then
    /// hand the tile back.
    Render { tile: TileData, first_sample: usize, samples: usize },
    /// The queue is empty but other workers still hold tiles that may come
    /// back: ask again later.
    Wait,
    /// Nothing is queued and nothing is in flight: the render is complete.
    Done,
}

/// The shared state of the workers: the queue of unfinished tiles and the
/// number of tiles that workers currently hold.
pub struct TileScheduler {
    pub queue: TileQueue,
    pub in_flight: usize,
    pub chunk: usize,
    pub spp: usize,
}

impl TileScheduler {
    /// No queued tile needs more samples than the render asks for.
    pub open spec fn wf(&self) -> bool {
        forall|k: int|
            0 <= k < self.queue@.len() ==> (#[trigger] self.queue@[k]).remaining_samples
                <= self.spp
    }

    /// A scheduler over every tile of a `width` x `height` image at `spp`
    /// samples per pixel, handing out chunks of at most `chunk` samples.
    pub fn new(width: usize, height: usize, spp: usize, chunk: usize) -> (r: TileScheduler)
        requires
            width as int * height as int <= usize::MAX,
            chunk >= 1,
        ensures
            r.queue@.len() == num_tiles_spec(width as int, height as int),
            forall|i: int|
                0 <= i < r.queue@.len() ==> #[trigger] r.queue@[i] == tile_spec(
                    width as int,
                    height as int,
                    spp as int,
                    i,
                ),
            r.in_flight == 0,
            r.chunk == chunk,
            r.spp == spp,
            r.wf(),
    {
        TileScheduler { queue: TileQueue::for_image(width, height, spp), in_flight: 0, chunk, spp }
    }

    /// Hands out the next chunk of work: a chunk of the tile served first,
    /// or `Wait` / `Done` when the queue is empty, depending on whether tiles
    /// are still in flight.
    pub fn acquire(&mut self) -> (r: Assignment)
        requires
            old(self).wf(),
            old(self).in_flight < usize::MAX,
        ensures
            final(self).wf(),
            final(self).chunk == old(self).chunk,
            final(self).spp == old(self).spp,
            r == Assignment::Done <==> (old(self).queue@.len() == 0 && old(self).in_flight == 0),
            r == Assignment::Wait <==> (old(self).queue@.len() == 0 && old(self).in_flight > 0),
            old(self).queue@.len() == 0 ==> final(self).queue@ == old(self).queue@
                && final(self).in_flight == old(self).in_flight,
            match r {
                Assignment::Render { tile, first_sample, samples } => {
                    &&& final(self).in_flight == old(self).in_flight + 1
                    &&& first_sample + samples + tile.remaining_samples == old(self).spp
                    &&& exists|k: int|
                        0 <= k < old(self).queue@.len() && final(self).queue@ == old(
                            self,
                        ).queue@.remove(k) && tile == (TileData {
                            remaining_samples: (old(self).queue@[k].remaining_samples
                                - samples) as usize,
                            ..old(self).queue@[k]
                        }) && samples == if old(self).queue@[k].remaining_samples
                            < old(self).chunk {
                            old(self).queue@[k].remaining_samples
                        } else {
                            old(self).chunk
                        } && forall|j: int|
                            0 <= j < old(self).queue@.len() ==> !served_before(
                                #[trigger] old(self).queue@[j],
                                old(self).queue@[k],
                            )
                },
                _ => true,
            },
    {
        let ghost before = self.queue@;
        match self.queue.pop() {
            Some(tile) => {
                proof {
                    let k = choose|k: int|
                        0 <= k < before.len() && before[k] == tile && self.queue@ == before.remove(
                            k,
                        );
                    assert forall|j: int| 0 <= j < self.queue@.len() implies (
                    #[trigger] self.queue@[j]).remaining_samples <= self.spp by {
                        if j < k {
                            assert(self.queue@[j] == before[j]);
                        } else {
                            assert(self.queue@[j] == before[j + 1]);
                        }
                    }
                }
                let first_sample = self.spp - tile.remaining_samples;
                let mut t = tile;
                let samples = t.take_chunk(self.chunk);
                self.in_flight = self.in_flight + 1;
                Assignment::Render { tile: t, first_sample, samples }
            },
            None => {
                if self.in_flight == 0 {
                    Assignment::Done
                } else {
                    Assignment::Wait
                }
            },
        }
    }

    /// Takes back a tile a worker finished a chunk of: it goes back in the
    /// queue if it still needs samples, and is retired otherwise.
    pub fn release(&mut self, tile: TileData)
        requires
            old(self).wf(),
            old(self).in_flight > 0,
            tile.remaining_samples <= old(self).spp,
        ensures
            final(self).wf(),
            final(self).in_flight == old(self).in_flight - 1,
            final(self).chunk == old(self).chunk,
            final(self).spp == old(self).spp,
            final(self).queue@ == if tile.remaining_samples > 0 {
                old(self).queue@.push(tile)
            } else {
                old(self).queue@
            },
    {
        self.in_flight = self.in_flight - 1;
        self.queue.requeue(tile);
    }
}

/// Successive chunks of a tile are consecutive runs of sample indices: the
/// chunk taken after one that started at `first` with `n` samples starts at
/// `first + n`. Over a render, every sample index below `spp` of every pixel
/// is thus rendered exactly once, whatever order the workers take tiles in.
pub proof fn lemma_chunks_are_consecutive(spp: int, tile: TileData, chunk: int)
    requires
        tile.remaining_samples <= spp,
    ensures
        ({
            let n = if tile.remaining_samples < chunk {
                tile.remaining_samples as int
            } else {
                chunk
            };
            let first = spp - tile.remaining_samples;
            let next_first = spp - (tile.remaining_samples - n);
            chunk >= 0 ==> next_first == first + n && 0 <= first && next_first <= spp
        }),
{
}

/// Does some round of `log` (at one sample per pixel) render pixel `(x, y)`?
pub open spec fn round_holds_pixel(log: Seq<(usize, usize)>, width: int, height: int, x: int, y: int) -> bool {
    exists|j: int| 0 <= j < log.len() && #[trigger] tile_spec(width, height, 1, log[j].0 as int).contains(x, y)
}

/// Order in which one worker renders a `width` x `height` image at `spp`
/// samples per pixel, in chunks of at most `chunk`: round by round, the tile's
/// index and the chunk's size.
///
/// Every tile receives exactly `spp` samples per pixel over its rounds. At one
/// sample per pixel there is one round per tile, and every pixel lies in the
/// tile of exactly one round: each pixel is rendered exactly once.
pub fn single_worker_schedule(width: usize, height: usize, spp: usize, chunk: usize) -> (log: Vec<
    (usize, usize),
>)
    requires
        width as int * height as int <= usize::MAX,
        chunk >= 1,
    ensures
        forall|j: int|
            0 <= j < log@.len() ==> 1 <= (#[trigger] log@[j]).1 <= chunk && log@[j].0
                < num_tiles_spec(width as int, height as int),
        forall|idx: int|
            0 <= idx < num_tiles_spec(width as int, height as int) ==> #[trigger] samples_of(
                log@,
                idx as usize,
            ) == spp,
        spp == 1 ==> {
            &&& log@.len() == num_tiles_spec(width as int, height as int)
            &&& forall|j: int| 0 <= j < log@.len() ==> (#[trigger] log@[j]).1 == 1
            &&& forall|x: int, y: int|
                0 <= x < width && 0 <= y < height ==> #[trigger] round_holds_pixel(
                    log@,
                    width as int,
                    height as int,
                    x,
                    y,
                )
            &&& forall|x: int, y: int, a: int, b: int|
                0 <= x < width && 0 <= y < height && 0 <= a < log@.len() && 0 <= b < log@.len()
                    && #[trigger] tile_spec(width as int, height as int, 1, log@[a].0 as int).contains(x, y)
                    && #[trigger] tile_spec(width as int, height as int, 1, log@[b].0 as int).contains(x, y) ==> a == b
        },
{
    let mut queue = TileQueue::for_image(width, height, spp);
    let ghost initial = queue@;
    let n = queue.len();
    let log = run_single_worker(&mut queue, chunk);
    proof {
        lemma_num_tiles_bound(width as int, height as int);
        assert forall|i: int| 0 <= i < initial.len() implies (#[trigger] initial[i]).idx == i by {}
        assert forall|j: int| 0 <= j < log@.len() implies (#[trigger] log@[j]).0 < num_tiles_spec(width as int, height as int) by {
            assert(has_idx(initial, log@[j].0));
            let i = choose|i: int| 0 <= i < initial.len() && (#[trigger] initial[i]).idx == log@[j].0;
        }
        assert(distinct_tiles(initial));
        assert forall|idx: int| 0 <= idx < num_tiles_spec(width as int, height as int) implies #[trigger] samples_of(log@, idx as usize) == spp by {
            assert(initial[idx].idx == idx);
        }
        if spp == 1 {
            assert forall|i: int| 0 <= i < initial.len() implies (#[trigger] initial[i]).remaining_samples == 1 by {}
            assert forall|i: int| 0 <= i < num_tiles_spec(width as int, height as int) implies #[trigger] logged(log@, i as usize) by {
                assert(logged(log@, initial[i].idx));
            }
            assert forall|x: int, y: int| 0 <= x < width && 0 <= y < height implies #[trigger] round_holds_pixel(log@, width as int, height as int, x, y) by {
                lemma_single_pass_renders_each_pixel_once(width, height, log@, x, y);
            }
            assert forall|x: int, y: int, a: int, b: int|
                0 <= x < width && 0 <= y < height && 0 <= a < log@.len() && 0 <= b < log@.len()
                    && #[trigger] tile_spec(width as int, height as int, 1, log@[a].0 as int).contains(x, y)
                    && #[trigger] tile_spec(width as int, height as int, 1, log@[b].0 as int).contains(x, y) implies a == b by {
                lemma_single_pass_renders_each_pixel_once(width, height, log@, x, y);
            }
        }
    }
    log
}

} // verus!
