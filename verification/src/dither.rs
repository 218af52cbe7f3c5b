//! The Floyd-Steinberg error-diffusion ditherer: re-render a pixel buffer
//! with a fixed palette, pushing each pixel's quantization error onto the
//! unvisited east- and south-facing neighbors.

use vstd::prelude::*;

use crate::cluster::{
    channel_means, lemma_nearest_spec_props, mean_sample, nearest_center, nearest_spec,
    MAX_SAMPLES,
};
use crate::sample::{
    all_channels_valid, channels_valid, clamp, clamp_spec, same_color, Sample,
};

verus! {

/// Sixteenths of the error pushed to the east neighbor.
pub const FS_EAST_WEIGHT: u32 = 7;

/// Sixteenths of the error pushed to the south-west neighbor.
pub const FS_SOUTH_WEST_WEIGHT: u32 = 3;

/// Sixteenths of the error pushed to the south neighbor.
pub const FS_SOUTH_WEIGHT: u32 = 5;

/// Sixteenths of the error pushed to the south-east neighbor.
pub const FS_SOUTH_EAST_WEIGHT: u32 = 1;

/// The denominator of the kernel: errors are diffused in sixteenths.
pub const FS_WEIGHT_TOTAL: u32 = 16;

/// The four kernel weights distribute exactly sixteen sixteenths: the whole
/// error is handed on, none is invented.
pub proof fn lemma_fs_weights_total()
    ensures
        FS_EAST_WEIGHT + FS_SOUTH_WEST_WEIGHT + FS_SOUTH_WEIGHT + FS_SOUTH_EAST_WEIGHT
            == FS_WEIGHT_TOTAL,
{
}

/// `weight` sixteenths of a signed channel error, rounded to the nearest
/// integer, halves away from zero.
pub open spec fn fs_scaled(err: int, weight: int) -> int {
    if err >= 0 {
        (err * weight + 8) / 16
    } else {
        -((-err * weight + 8) / 16)
    }
}

/// A mutable 2-D grid of color cells, row-major, addressed by `(x, y)`.
pub struct PixelBuffer {
    pub width: usize,
    pub height: usize,
    pub data: Vec<Sample>,
}

impl PixelBuffer {
    /// The grid holds exactly `width * height` cells, all with 8-bit
    /// channels. Every constructor establishes this and every method keeps
    /// it.
    pub open spec fn wf(self) -> bool {
        &&& self.data@.len() == self.width * self.height
        &&& all_channels_valid(self.data@)
    }

    /// Row-major cell index of `(x, y)`.
    pub open spec fn grid_index(self, x: int, y: int) -> int {
        y * self.width + x
    }

    /// A black buffer of the given dimensions.
    pub fn new(width: usize, height: usize) -> (buf: PixelBuffer)
        requires
            width * height <= usize::MAX,
        ensures
            buf.wf(),
            buf.width == width,
            buf.height == height,
            forall|i: int|
                0 <= i < buf.data@.len() ==> #[trigger] buf.data@[i] == (Sample {
                    r: 0,
                    g: 0,
                    b: 0,
                    x: 0,
                    y: 0,
                }),
    {
        let total = width * height;
        let mut data: Vec<Sample> = Vec::new();
        let mut i: usize = 0;
        while i < total
            invariant
                i <= total,
                data@.len() == i,
                forall|j: int|
                    0 <= j < i ==> #[trigger] data@[j] == (Sample {
                        r: 0,
                        g: 0,
                        b: 0,
                        x: 0,
                        y: 0,
                    }),
            decreases total - i,
        {
            data.push(Sample { r: 0, g: 0, b: 0, x: 0, y: 0 });
            i = i + 1;
        }
        PixelBuffer { width, height, data }
    }

    /// The cell at `(x, y)`.
    pub fn get_pixel(&self, x: usize, y: usize) -> (s: Sample)
        requires
            self.wf(),
            x < self.width,
            y < self.height,
        ensures
            s == self.data@[self.grid_index(x as int, y as int)],
    {
        let n = self.data.len();
        proof {
            lemma_grid_index_bound(self.width as int, self.height as int, x as int, y as int);
        }
        self.data[y * self.width + x]
    }

    /// Write the given color into the cell at `(x, y)`; the cell carries no
    /// position of its own.
    pub fn set_pixel(&mut self, x: usize, y: usize, r: i32, g: i32, b: i32)
        requires
            old(self).wf(),
            x < old(self).width,
            y < old(self).height,
            0 <= r <= 255,
            0 <= g <= 255,
            0 <= b <= 255,
        ensures
            final(self).wf(),
            final(self).width == old(self).width,
            final(self).height == old(self).height,
            final(self).data@ == old(self).data@.update(
                old(self).grid_index(x as int, y as int),
                Sample { r, g, b, x: 0, y: 0 },
            ),
    {
        let n = self.data.len();
        proof {
            lemma_grid_index_bound(self.width as int, self.height as int, x as int, y as int);
        }
        let i = y * self.width + x;
        self.data.set(i, Sample { r, g, b, x: 0, y: 0 });
    }
}

/// A row-major cell index is within a `w` by `h` grid.
pub proof fn lemma_grid_index_bound(w: int, h: int, x: int, y: int)
    requires
        0 <= x < w,
        0 <= y < h,
    ensures
        0 <= y * w + x < w * h,
{
    assert(0 <= y * w + x < w * h) by (nonlinear_arith)
        requires
            0 <= x < w,
            0 <= y < h,
    ;
}

/// The cell adjusted by the given share of the error, each channel clamped
/// back to the 8-bit range.
pub open spec fn diffused(cell: Sample, er: int, eg: int, eb: int, weight: int) -> Sample {
    Sample {
        r: clamp_spec(cell.r + fs_scaled(er, weight), 0, 255) as i32,
        g: clamp_spec(cell.g + fs_scaled(eg, weight), 0, 255) as i32,
        b: clamp_spec(cell.b + fs_scaled(eb, weight), 0, 255) as i32,
        x: cell.x,
        y: cell.y,
    }
}

/// The cell overwritten with the chosen palette color.
pub open spec fn quantized(cell: Sample, chosen: Sample) -> Sample {
    Sample { r: chosen.r, g: chosen.g, b: chosen.b, x: cell.x, y: cell.y }
}

/// Dither the single cell `(x, y)` of a `w`-wide grid: replace it with the
/// nearest palette color and push sixteenths of the error east, south-west,
/// south and south-east. The south-west write is skipped on the left edge;
/// the scan never reaches the last row or column, so the other three
/// neighbors are always in range.
pub open spec fn dither_cell(
    grid: Seq<Sample>,
    w: int,
    x: int,
    y: int,
    palette: Seq<Sample>,
) -> Seq<Sample> {
    let i = y * w + x;
    let old_cell = grid[i];
    let chosen = palette[nearest_spec(palette, old_cell)];
    let er = old_cell.r - chosen.r;
    let eg = old_cell.g - chosen.g;
    let eb = old_cell.b - chosen.b;
    let g1 = grid.update(i, quantized(old_cell, chosen));
    let g2 = g1.update(i + 1, diffused(g1[i + 1], er, eg, eb, 7));
    let g3 = if x > 0 {
        g2.update((y + 1) * w + x - 1, diffused(g2[(y + 1) * w + x - 1], er, eg, eb, 3))
    } else {
        g2
    };
    let g4 = g3.update((y + 1) * w + x, diffused(g3[(y + 1) * w + x], er, eg, eb, 5));
    g4.update((y + 1) * w + x + 1, diffused(g4[(y + 1) * w + x + 1], er, eg, eb, 1))
}

/// Row `y` dithered through its first `x` cells.
pub open spec fn dither_row(
    grid: Seq<Sample>,
    w: int,
    y: int,
    palette: Seq<Sample>,
    x: int,
) -> Seq<Sample>
    decreases x,
{
    if x <= 0 {
        grid
    } else {
        dither_cell(dither_row(grid, w, y, palette, x - 1), w, x - 1, y, palette)
    }
}

/// The grid dithered through its first `y` rows, each row through its first
/// `w - 1` cells: the raster scan leaves the last row and column
/// unquantized so every diffusion target exists.
pub open spec fn dither_rows(grid: Seq<Sample>, w: int, palette: Seq<Sample>, y: int) -> Seq<
    Sample,
>
    decreases y,
{
    if y <= 0 {
        grid
    } else {
        dither_row(dither_rows(grid, w, palette, y - 1), w, y - 1, palette, w - 1)
    }
}

/// The whole raster scan over a `w` by `h` grid.
pub open spec fn dither_spec(grid: Seq<Sample>, w: int, h: int, palette: Seq<Sample>) -> Seq<
    Sample,
> {
    dither_rows(grid, w, palette, h - 1)
}

/// `weight` sixteenths of a signed channel error, rounded to the nearest
/// integer, halves away from zero.
fn scaled(err: i32, weight: u32) -> (s: i32)
    requires
        -255 <= err <= 255,
        weight <= 16,
    ensures
        s == fs_scaled(err as int, weight as int),
        -255 <= s <= 255,
{
    let mag: u32 = if err >= 0 {
        err as u32
    } else {
        (-err) as u32
    };
    proof {
        assert(mag * weight <= 255 * 16) by (nonlinear_arith)
            requires
                mag <= 255,
                weight <= 16,
        ;
        vstd::arithmetic::div_mod::lemma_div_is_ordered(
            (mag * weight + 8) as int,
            4088 as int,
            16,
        );
        vstd::arithmetic::div_mod::lemma_div_is_ordered(0, (mag * weight + 8) as int, 16);
    }
    let m: u32 = (mag * weight + 8) / 16;
    if err >= 0 {
        m as i32
    } else {
        -(m as i32)
    }
}

/// Adjust the cell at `idx` by the given share of the error, clamped.
fn diffuse_to(data: &mut Vec<Sample>, idx: usize, er: i32, eg: i32, eb: i32, weight: u32)
    requires
        idx < old(data)@.len(),
        all_channels_valid(old(data)@),
        -255 <= er <= 255,
        -255 <= eg <= 255,
        -255 <= eb <= 255,
        weight <= 16,
    ensures
        final(data)@ == old(data)@.update(
            idx as int,
            diffused(old(data)@[idx as int], er as int, eg as int, eb as int, weight as int),
        ),
        all_channels_valid(final(data)@),
{
    let cell = data[idx];
    let nr = clamp(cell.r + scaled(er, weight), 0, 255);
    let ng = clamp(cell.g + scaled(eg, weight), 0, 255);
    let nb = clamp(cell.b + scaled(eb, weight), 0, 255);
    data.set(idx, Sample { r: nr, g: ng, b: nb, x: cell.x, y: cell.y });
    proof {
        assert forall|j: int| 0 <= j < final(data)@.len() implies channels_valid(
            #[trigger] final(data)@[j],
        ) by {
            if j != idx {
                assert(final(data)@[j] == old(data)@[j]);
            }
        }
    }
}

/// Dither the single cell `(x, y)` of the buffer, as `dither_cell` says.
fn dither_cell_exec(buf: &mut PixelBuffer, x: usize, y: usize, colors: &Vec<Sample>)
    requires
        old(buf).wf(),
        x + 1 < old(buf).width,
        y + 1 < old(buf).height,
        colors@.len() >= 1,
        all_channels_valid(colors@),
    ensures
        final(buf).wf(),
        final(buf).width == old(buf).width,
        final(buf).height == old(buf).height,
        final(buf).data@ == dither_cell(
            old(buf).data@,
            old(buf).width as int,
            x as int,
            y as int,
            colors@,
        ),
{
    let w = buf.width;
    let h = buf.height;
    let n = buf.data.len();
    proof {
        lemma_grid_index_bound(w as int, h as int, x as int, y as int);
        lemma_grid_index_bound(w as int, h as int, x as int + 1, y as int);
        lemma_grid_index_bound(w as int, h as int, x as int, y as int + 1);
        lemma_grid_index_bound(w as int, h as int, x as int + 1, y as int + 1);
        if x > 0 {
            lemma_grid_index_bound(w as int, h as int, x as int - 1, y as int + 1);
        }
        lemma_nearest_spec_props(colors@, old(buf).data@[y as int * w as int + x as int]);
    }
    let i = y * w + x;
    let old_cell = buf.data[i];
    let ci = nearest_center(colors, &old_cell);
    let chosen = colors[ci];
    let er = old_cell.r - chosen.r;
    let eg = old_cell.g - chosen.g;
    let eb = old_cell.b - chosen.b;
    buf.data.set(
        i,
        Sample { r: chosen.r, g: chosen.g, b: chosen.b, x: old_cell.x, y: old_cell.y },
    );
    proof {
        assert forall|j: int| 0 <= j < buf.data@.len() implies channels_valid(
            #[trigger] buf.data@[j],
        ) by {
            if j != i {
                assert(buf.data@[j] == old(buf).data@[j]);
            }
        }
    }
    diffuse_to(&mut buf.data, i + 1, er, eg, eb, FS_EAST_WEIGHT);
    if x > 0 {
        diffuse_to(&mut buf.data, (y + 1) * w + x - 1, er, eg, eb, FS_SOUTH_WEST_WEIGHT);
    }
    diffuse_to(&mut buf.data, (y + 1) * w + x, er, eg, eb, FS_SOUTH_WEIGHT);
    diffuse_to(&mut buf.data, (y + 1) * w + x + 1, er, eg, eb, FS_SOUTH_EAST_WEIGHT);
}

/// Re-render the buffer in place with the given palette, scanning row-major
/// and diffusing each pixel's quantization error to unvisited neighbors.
/// An undersized buffer (fewer than two rows or columns) has no cell whose
/// neighbors all exist, and is left unchanged, as the scan bounds say.
pub fn dither_floyd_steinberg(buf: &mut PixelBuffer, colors: &Vec<Sample>)
    requires
        old(buf).wf(),
        colors@.len() >= 1,
        all_channels_valid(colors@),
    ensures
        final(buf).wf(),
        final(buf).width == old(buf).width,
        final(buf).height == old(buf).height,
        final(buf).data@ == dither_spec(
            old(buf).data@,
            old(buf).width as int,
            old(buf).height as int,
            colors@,
        ),
{
    if buf.width < 2 || buf.height < 2 {
        proof {
            if buf.height >= 2 {
                lemma_dither_rows_narrow(
                    buf.data@,
                    buf.width as int,
                    colors@,
                    buf.height as int - 1,
                );
            }
        }
        return ;
    }
    let ghost orig = buf.data@;
    let w = buf.width;
    let h = buf.height;
    let mut y: usize = 0;
    while y < h - 1
        invariant
            y <= h - 1,
            2 <= w,
            2 <= h,
            buf.wf(),
            buf.width == w,
            buf.height == h,
            colors@.len() >= 1,
            all_channels_valid(colors@),
            buf.data@ == dither_rows(orig, w as int, colors@, y as int),
        decreases h - 1 - y,
    {
        let mut x: usize = 0;
        while x < w - 1
            invariant
                x <= w - 1,
                y < h - 1,
                2 <= w,
                2 <= h,
                buf.wf(),
                buf.width == w,
                buf.height == h,
                colors@.len() >= 1,
                all_channels_valid(colors@),
                buf.data@ == dither_row(
                    dither_rows(orig, w as int, colors@, y as int),
                    w as int,
                    y as int,
                    colors@,
                    x as int,
                ),
            decreases w - 1 - x,
        {
            dither_cell_exec(buf, x, y, colors);
            x = x + 1;
        }
        y = y + 1;
    }
}

/// A grid a single cell wide (or narrower) has no east neighbor anywhere:
/// the scan does nothing.
pub proof fn lemma_dither_rows_narrow(grid: Seq<Sample>, w: int, palette: Seq<Sample>, y: int)
    requires
        w <= 1,
    ensures
        dither_rows(grid, w, palette, y) == grid,
    decreases (if y > 0 {
        y
    } else {
        0
    }),
{
    if y > 0 {
        lemma_dither_rows_narrow(grid, w, palette, y - 1);
    }
}

/// The four diffused shares of one channel error sum to the whole error,
/// up to at most two intensity steps of accumulated rounding, in either
/// direction: each share rounds to the nearest sixteenth, so no channel
/// drifts beyond that.
pub proof fn lemma_fs_diffused_total(e: int)
    ensures
        e >= 0 ==> e - 1 <= fs_scaled(e, 7) + fs_scaled(e, 3) + fs_scaled(e, 5) + fs_scaled(e, 1)
            <= e + 2,
        e <= 0 ==> e - 2 <= fs_scaled(e, 7) + fs_scaled(e, 3) + fs_scaled(e, 5) + fs_scaled(e, 1)
            <= e + 1,
{
    if e >= 0 {
        lemma_fs_nonneg_total(e);
    } else {
        lemma_fs_nonneg_total(-e);
    }
}

/// The rounded shares of a non-negative error keep within rounding loss.
proof fn lemma_fs_nonneg_total(e: int)
    requires
        e >= 0,
    ensures
        e - 1 <= (e * 7 + 8) / 16 + (e * 3 + 8) / 16 + (e * 5 + 8) / 16 + (e * 1 + 8) / 16 <= e
            + 2,
{
    vstd::arithmetic::div_mod::lemma_fundamental_div_mod(e * 7 + 8, 16);
    vstd::arithmetic::div_mod::lemma_fundamental_div_mod(e * 3 + 8, 16);
    vstd::arithmetic::div_mod::lemma_fundamental_div_mod(e * 5 + 8, 16);
    vstd::arithmetic::div_mod::lemma_fundamental_div_mod(e * 1 + 8, 16);
    vstd::arithmetic::div_mod::lemma_mod_bound(e * 7 + 8, 16);
    vstd::arithmetic::div_mod::lemma_mod_bound(e * 3 + 8, 16);
    vstd::arithmetic::div_mod::lemma_mod_bound(e * 5 + 8, 16);
    vstd::arithmetic::div_mod::lemma_mod_bound(e * 1 + 8, 16);
}

/// Dithering one cell of a buffer whose every pixel already carries the
/// single palette color changes nothing: the nearest color is exact, the
/// error is zero, and clamping a valid channel is the identity.
proof fn lemma_dither_cell_identity(
    grid: Seq<Sample>,
    w: int,
    h: int,
    x: int,
    y: int,
    palette: Seq<Sample>,
)
    requires
        palette.len() == 1,
        channels_valid(palette[0]),
        grid.len() == w * h,
        forall|i: int| 0 <= i < grid.len() ==> same_color(#[trigger] grid[i], palette[0]),
        0 <= x < w - 1,
        0 <= y < h - 1,
    ensures
        dither_cell(grid, w, x, y, palette) == grid,
{
    lemma_grid_index_bound(w, h, x, y);
    lemma_grid_index_bound(w, h, x + 1, y);
    lemma_grid_index_bound(w, h, x, y + 1);
    lemma_grid_index_bound(w, h, x + 1, y + 1);
    if x > 0 {
        lemma_grid_index_bound(w, h, x - 1, y + 1);
    }
    let i = y * w + x;
    let old_cell = grid[i];
    assert(nearest_spec(palette, old_cell) == 0);
    let chosen = palette[0];
    assert(quantized(old_cell, chosen) == old_cell);
    assert(grid.update(i, old_cell) =~= grid);
    assert(fs_scaled(0, 7) == 0) by (nonlinear_arith);
    assert(fs_scaled(0, 3) == 0) by (nonlinear_arith);
    assert(fs_scaled(0, 5) == 0) by (nonlinear_arith);
    assert(fs_scaled(0, 1) == 0) by (nonlinear_arith);
    assert forall|j: int| 0 <= j < grid.len() implies diffused(
        #[trigger] grid[j],
        0,
        0,
        0,
        7,
    ) == grid[j] && diffused(grid[j], 0, 0, 0, 3) == grid[j] && diffused(grid[j], 0, 0, 0, 5)
        == grid[j] && diffused(grid[j], 0, 0, 0, 1) == grid[j] by {
        assert(same_color(grid[j], palette[0]));
    }
    assert(grid.update(i + 1, grid[i + 1]) =~= grid);
    if x > 0 {
        assert(grid.update((y + 1) * w + x - 1, grid[(y + 1) * w + x - 1]) =~= grid);
    }
    assert(grid.update((y + 1) * w + x, grid[(y + 1) * w + x]) =~= grid);
    assert(grid.update((y + 1) * w + x + 1, grid[(y + 1) * w + x + 1]) =~= grid);
}

/// A dithered row prefix of such a buffer is unchanged.
proof fn lemma_dither_row_identity(
    grid: Seq<Sample>,
    w: int,
    h: int,
    y: int,
    palette: Seq<Sample>,
    x: int,
)
    requires
        palette.len() == 1,
        channels_valid(palette[0]),
        grid.len() == w * h,
        forall|i: int| 0 <= i < grid.len() ==> same_color(#[trigger] grid[i], palette[0]),
        x <= w - 1,
        0 <= y < h - 1,
    ensures
        dither_row(grid, w, y, palette, x) == grid,
    decreases (if x > 0 {
        x
    } else {
        0
    }),
{
    if x > 0 {
        lemma_dither_row_identity(grid, w, h, y, palette, x - 1);
        lemma_dither_cell_identity(grid, w, h, x - 1, y, palette);
    }
}

/// A dithered prefix of the rows of such a buffer is unchanged.
proof fn lemma_dither_rows_identity(
    grid: Seq<Sample>,
    w: int,
    h: int,
    palette: Seq<Sample>,
    y: int,
)
    requires
        palette.len() == 1,
        channels_valid(palette[0]),
        grid.len() == w * h,
        forall|i: int| 0 <= i < grid.len() ==> same_color(#[trigger] grid[i], palette[0]),
        y <= h - 1,
    ensures
        dither_rows(grid, w, palette, y) == grid,
    decreases (if y > 0 {
        y
    } else {
        0
    }),
{
    if y > 0 {
        lemma_dither_rows_identity(grid, w, h, palette, y - 1);
        lemma_dither_row_identity(grid, w, h, y - 1, palette, w - 1);
    }
}

/// Dithering is idempotent on a buffer already quantized to a singleton
/// palette: every pixel maps to that one color again and no non-zero error
/// is diffused, so the buffer is returned exactly as it was.
pub proof fn lemma_dither_singleton_identity(
    grid: Seq<Sample>,
    w: int,
    h: int,
    palette: Seq<Sample>,
)
    requires
        palette.len() == 1,
        channels_valid(palette[0]),
        grid.len() == w * h,
        forall|i: int| 0 <= i < grid.len() ==> same_color(#[trigger] grid[i], palette[0]),
    ensures
        dither_spec(grid, w, h, palette) == grid,
{
    lemma_dither_rows_identity(grid, w, h, palette, h - 1);
}

/// Why a dithering request was rejected.
#[derive(Clone, Copy, PartialEq, Eq, Structural, Debug)]
pub enum DitherError {
    /// A palette with no colors leaves the nearest-color lookup undefined.
    EmptyPalette,
    /// Some palette entry's channel lies outside the 8-bit intensity range.
    InvalidPalette,
    /// The buffer's cell count does not match its dimensions, or a cell's
    /// channel lies outside the 8-bit intensity range.
    MalformedBuffer,
}

impl PixelBuffer {
    /// Whether the buffer is well formed: the cell count matches the
    /// dimensions and every channel is an 8-bit intensity.
    pub fn is_wf(&self) -> (ok: bool)
        ensures
            ok == self.wf(),
    {
        let n = self.data.len();
        match self.width.checked_mul(self.height) {
            None => false,
            Some(total) => {
                if total != self.data.len() {
                    return false;
                }
                crate::cluster::samples_all_valid(&self.data)
            },
        }
    }
}

/// `dither_floyd_steinberg` behind explicit checks: rejects an empty or
/// invalid palette and a malformed buffer with a descriptive error, leaving
/// the buffer untouched; succeeds on everything else.
pub fn dither_checked(buf: &mut PixelBuffer, colors: &Vec<Sample>) -> (res: Result<
    (),
    DitherError,
>)
    ensures
        (res is Err && res->Err_0 == DitherError::EmptyPalette) <==> colors@.len() == 0,
        (res is Err && res->Err_0 == DitherError::InvalidPalette) <==> (colors@.len() > 0
            && !all_channels_valid(colors@)),
        (res is Err && res->Err_0 == DitherError::MalformedBuffer) <==> (colors@.len() > 0
            && all_channels_valid(colors@) && !old(buf).wf()),
        res is Err ==> *final(buf) == *old(buf),
        res is Ok <==> (colors@.len() > 0 && all_channels_valid(colors@) && old(buf).wf()),
        res is Ok ==> final(buf).wf() && final(buf).width == old(buf).width && final(buf).height
            == old(buf).height && final(buf).data@ == dither_spec(
            old(buf).data@,
            old(buf).width as int,
            old(buf).height as int,
            colors@,
        ),
{
    if colors.len() == 0 {
        return Err(DitherError::EmptyPalette);
    }
    if !crate::cluster::samples_all_valid(colors) {
        return Err(DitherError::InvalidPalette);
    }
    if !buf.is_wf() {
        return Err(DitherError::MalformedBuffer);
    }
    dither_floyd_steinberg(buf, colors);
    Ok(())
}

/// The grid after the first `n` members of one selection are painted with
/// the selection's average color; a member whose position lies outside the
/// grid is skipped.
pub open spec fn painted_members(
    grid: Seq<Sample>,
    w: int,
    h: int,
    sel: Seq<Sample>,
    avg: Sample,
    n: int,
) -> Seq<Sample>
    decreases n,
{
    if n <= 0 {
        grid
    } else {
        let g = painted_members(grid, w, h, sel, avg, n - 1);
        let p = sel[n - 1];
        if 0 <= p.x < w && 0 <= p.y < h {
            g.update(p.y * w + p.x, quantized(g[p.y * w + p.x], avg))
        } else {
            g
        }
    }
}

/// The grid after the first `n` selections are painted, each non-empty one
/// with its own mean color; an empty selection paints nothing.
pub open spec fn painted_selections(
    grid: Seq<Sample>,
    w: int,
    h: int,
    sels: Seq<Seq<Sample>>,
    n: int,
) -> Seq<Sample>
    decreases n,
{
    if n <= 0 {
        grid
    } else {
        let g = painted_selections(grid, w, h, sels, n - 1);
        let sel = sels[n - 1];
        if sel.len() == 0 {
            g
        } else {
            painted_members(g, w, h, sel, mean_sample(sel), sel.len() as int)
        }
    }
}

/// Paint every member of every non-empty selection back at its originating
/// position, in the selection's average color: the flat-color alternative
/// to dithering. Members whose positions fall outside the buffer are
/// skipped.
pub fn draw_selection_to_image(buf: &mut PixelBuffer, selections: &Vec<Vec<Sample>>)
    requires
        old(buf).wf(),
        forall|c: int|
            0 <= c < selections@.len() ==> (#[trigger] selections@[c])@.len() <= MAX_SAMPLES,
        forall|c: int|
            0 <= c < selections@.len() ==> all_channels_valid((#[trigger] selections@[c])@),
    ensures
        final(buf).wf(),
        final(buf).width == old(buf).width,
        final(buf).height == old(buf).height,
        final(buf).data@ == painted_selections(
            old(buf).data@,
            old(buf).width as int,
            old(buf).height as int,
            selections@.map_values(|v: Vec<Sample>| v@),
            selections@.len() as int,
        ),
{
    let ghost orig = buf.data@;
    let ghost sels_view = selections@.map_values(|v: Vec<Sample>| v@);
    let w = buf.width;
    let h = buf.height;
    let mut c: usize = 0;
    while c < selections.len()
        invariant
            c <= selections@.len(),
            buf.wf(),
            buf.width == w,
            buf.height == h,
            sels_view == selections@.map_values(|v: Vec<Sample>| v@),
            forall|d: int|
                0 <= d < selections@.len() ==> (#[trigger] selections@[d])@.len() <= MAX_SAMPLES,
            forall|d: int|
                0 <= d < selections@.len() ==> all_channels_valid((#[trigger] selections@[d])@),
            buf.data@ == painted_selections(orig, w as int, h as int, sels_view, c as int),
        decreases selections@.len() - c,
    {
        if selections[c].len() > 0 {
            let avg = channel_means(&selections[c]);
            let ghost before_sel = buf.data@;
            let mut j: usize = 0;
            while j < selections[c].len()
                invariant
                    c < selections@.len(),
                    j <= selections@[c as int]@.len(),
                    buf.wf(),
                    buf.width == w,
                    buf.height == h,
                    selections@[c as int]@.len() <= MAX_SAMPLES,
                    all_channels_valid(selections@[c as int]@),
                    avg == mean_sample(selections@[c as int]@),
                    channels_valid(avg),
                    buf.data@ == painted_members(
                        before_sel,
                        w as int,
                        h as int,
                        selections@[c as int]@,
                        avg,
                        j as int,
                    ),
                decreases selections@[c as int]@.len() - j,
            {
                let p = selections[c][j];
                if p.x >= 0 && p.y >= 0 && (p.x as usize) < w && (p.y as usize) < h {
                    let n = buf.data.len();
                    proof {
                        lemma_grid_index_bound(w as int, h as int, p.x as int, p.y as int);
                    }
                    let idx = (p.y as usize) * w + (p.x as usize);
                    let cell = buf.data[idx];
                    let ghost prev = buf.data@;
                    buf.data.set(
                        idx,
                        Sample { r: avg.r, g: avg.g, b: avg.b, x: cell.x, y: cell.y },
                    );
                    proof {
                        assert forall|t: int| 0 <= t < buf.data@.len() implies channels_valid(
                            #[trigger] buf.data@[t],
                        ) by {
                            if t != idx {
                                assert(buf.data@[t] == prev[t]);
                            }
                        }
                    }
                }
                j = j + 1;
            }
            proof {
                assert(sels_view[c as int] == selections@[c as int]@);
            }
        }
        c = c + 1;
    }
}

} // verus!
