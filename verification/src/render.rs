//! Turning decoded images into square tiles and placing them on the canvas.
//!
//! Pixels are handled by the `image` crate; what this module decides is which
//! resizing a fit asks for, where a contained image sits in its tile, and
//! where each tile sits on the canvas. Tiles and the canvas are [`Raster`]s:
//! images of 8-bit RGBA pixels, described by their rows of pixels and their
//! width.
use crate::grid::{canvas_extent, centered_offset, tile_origin};
use crate::settings::{fit_named, parse_fit, Fit};
use image::imageops::FilterType;
use image::{DynamicImage, Rgba, RgbaImage};
use vstd::prelude::*;

verus! {

/// `image::DynamicImage`, carried as an opaque value.
#[verifier::external_type_specification]
#[verifier::external_body]
pub struct ExDynamicImage(DynamicImage);

/// An image of 8-bit RGBA pixels (an `image::RgbaImage`), described by
/// [`raster_rows`] and [`raster_width`].
#[verifier::external_body]
pub struct Raster {
    pub image: RgbaImage,
}

/// The pixels of a raster, row by row from the top, each row from the left,
/// each pixel as its (red, green, blue, alpha) bytes.
pub uninterp spec fn raster_rows(r: Raster) -> Seq<Seq<(u8, u8, u8, u8)>>;

/// The width of a raster in pixels.
pub uninterp spec fn raster_width(r: Raster) -> nat;

/// The height of a raster in pixels.
pub open spec fn raster_height(r: Raster) -> nat {
    raster_rows(r).len()
}

/// Every row of the raster is as long as the raster is wide.
pub open spec fn raster_wf(r: Raster) -> bool {
    forall|y: int| 0 <= y < raster_rows(r).len() ==> #[trigger] raster_rows(r)[y].len() == raster_width(r)
}

/// A colour given as its four bytes, as a pixel.
pub open spec fn rgba_pixel(c: [u8; 4]) -> (u8, u8, u8, u8) {
    (c@[0], c@[1], c@[2], c@[3])
}

/// `height` rows of `width` pixels, all `p`.
pub open spec fn solid_rows(width: nat, height: nat, p: (u8, u8, u8, u8)) -> Seq<Seq<(u8, u8, u8, u8)>> {
    Seq::new(height, |_y: int| Seq::new(width, |_x: int| p))
}

/// `new` is what blending the rows `top` (`top_width` wide) onto the rows
/// `old` (`width` wide) with its top-left corner at `(x, y)` can give: the
/// size is kept; a pixel that `top` does not cover is kept; a covered pixel
/// becomes the covering pixel of `top` where that one is fully opaque, and is
/// kept where that one is fully transparent. (Partly transparent pixels are
/// blended in floating point, which is not described.)
pub open spec fn blended(
    old: Seq<Seq<(u8, u8, u8, u8)>>,
    width: nat,
    new: Seq<Seq<(u8, u8, u8, u8)>>,
    top: Seq<Seq<(u8, u8, u8, u8)>>,
    top_width: nat,
    x: int,
    y: int,
) -> bool {
    &&& new.len() == old.len()
    &&& forall|py: int| 0 <= py < new.len() ==> #[trigger] new[py].len() == width
    &&& forall|px: int, py: int|
        0 <= px < width && 0 <= py < old.len() ==> {
            let tx = px - x;
            let ty = py - y;
            if 0 <= tx < top_width && 0 <= ty < top.len() {
                &&& top[ty][tx].3 == 255 ==> #[trigger] new[py][px] == top[ty][tx]
                &&& top[ty][tx].3 == 0 ==> new[py][px] == old[py][px]
            } else {
                new[py][px] == old[py][px]
            }
        }
}

/// The contents of a decoded image: its pixels as 8-bit RGBA (as
/// `DynamicImage::to_rgba8` converts them), row by row from the top.
pub uninterp spec fn image_rows(img: DynamicImage) -> Seq<Seq<(u8, u8, u8, u8)>>;

/// The width of a decoded image in pixels.
pub uninterp spec fn image_width(img: DynamicImage) -> nat;

/// The height of a decoded image in pixels.
pub open spec fn image_height(img: DynamicImage) -> nat {
    image_rows(img).len()
}

/// The image stores each channel in 8 bits (it is `ImageLuma8`,
/// `ImageLumaA8`, `ImageRgb8` or `ImageRgba8`), so [`image_rows`] holds its
/// pixels exactly.
pub uninterp spec fn image_is_8bit(img: DynamicImage) -> bool;

/// Every pixel of `rows` is `p`.
pub open spec fn all_pixels(rows: Seq<Seq<(u8, u8, u8, u8)>>, p: (u8, u8, u8, u8)) -> bool {
    forall|y: int, x: int| 0 <= y < rows.len() && 0 <= x < rows[y].len() ==> #[trigger] rows[y][x] == p
}

/// Every pixel of `rows` is fully opaque.
pub open spec fn opaque(rows: Seq<Seq<(u8, u8, u8, u8)>>) -> bool {
    forall|y: int, x: int| 0 <= y < rows.len() && 0 <= x < rows[y].len() ==> #[trigger] rows[y][x].3 == 255
}

/// Resampling `img` to fit a `side` square keeps what every pixel has in
/// common: the image is non-empty, stored in 8 bits per channel, and at most
/// 100 times the side in either direction (so each output pixel is a
/// normalised weighted sum of at most a few hundred input pixels, well within
/// the precision of the `f32` sums before rounding).
pub open spec fn resampling_keeps_pixels(img: DynamicImage, side: nat) -> bool {
    &&& image_is_8bit(img)
    &&& image_width(img) >= 1 && image_height(img) >= 1 && side >= 1
    &&& image_width(img) <= 100 * side && image_height(img) <= 100 * side
}

/// Under [`resampling_keeps_pixels`], the resampled rows `out` of `img` are
/// of one colour where the image is, and fully opaque where the image is.
pub open spec fn pixels_kept(img: DynamicImage, side: nat, out: Seq<Seq<(u8, u8, u8, u8)>>) -> bool {
    resampling_keeps_pixels(img, side) ==> {
        &&& forall|p: (u8, u8, u8, u8)| all_pixels(image_rows(img), p) ==> all_pixels(out, p)
        &&& opaque(image_rows(img)) ==> opaque(out)
    }
}

/// A `sw` by `sh` image is a `w` by `h` image scaled, keeping its aspect
/// ratio, to fit a `side` square: for a non-empty image and a positive side,
/// its longer side is `side` and its shorter side is the rounded proportional
/// length, at least 1 (`|sh * w - h * side| <= w` when `w >= h`).
pub open spec fn scaled_to_fit(w: nat, h: nat, side: nat, sw: nat, sh: nat) -> bool {
    w >= 1 && h >= 1 && side >= 1 ==> {
        &&& w >= h ==> sw == side && sh >= 1 && -(w as int) <= sh * w - h * side <= w
        &&& h >= w ==> sh == side && sw >= 1 && -(h as int) <= sw * h - w * side <= h
    }
}

/// A pixel buffer `width` by `height`, of at most four channels per pixel,
/// has a length that fits `usize` (computed as `ImageBuffer::new` does:
/// channels times width, then times height).
pub open spec fn buffer_fits(width: nat, height: nat) -> bool {
    4 * width <= usize::MAX && 4 * width * height <= usize::MAX
}

/// The buffers that filling a `side` square from a `w` by `h` image allocates
/// fit `usize`, and the crop that follows cannot underflow. With a non-empty
/// image the intermediate image is at most `side * w / min(w, h) + 1` by
/// `side * h / min(w, h) + 1`; an empty one is scaled to 1 by 1 when `side`
/// is 0 and both sides are empty or `side` is at most 1, and otherwise to
/// 1 by `u32::MAX` (or the reverse), which is left out here.
pub open spec fn fill_fits(w: nat, h: nat, side: nat) -> bool {
    let mn = if w < h {
        w
    } else {
        h
    };
    if mn == 0 {
        (side == 0 && buffer_fits(w, 1)) || (w == 0 && h == 0 && side <= 1)
    } else {
        let a = side * w / mn + 1;
        let b = side * h / mn + 1;
        buffer_fits(w, b) && buffer_fits(a, b) && buffer_fits(side, side)
    }
}

/// The buffers that fitting a `w` by `h` image into a `side` square
/// allocates fit `usize`: the image is scaled to at most `side` (at least 1)
/// each way.
pub open spec fn within_fits(w: nat, side: nat) -> bool {
    let s1 = if side == 0 {
        1nat
    } else {
        side
    };
    buffer_fits(w, s1) && buffer_fits(s1, s1)
}

/// The buffers that stretching a `w` wide image to a `side` square allocates
/// fit `usize`.
pub open spec fn stretch_fits(w: nat, side: nat) -> bool {
    buffer_fits(w, side) && buffer_fits(side, side)
}

/// The buffers that the fit `fit` allocates for a `w` by `h` image and a
/// `side` square tile fit `usize` (and, for "cover", the crop cannot
/// underflow).
pub open spec fn fit_fits(fit: Fit, w: nat, h: nat, side: nat) -> bool {
    match fit {
        Fit::Cover => fill_fits(w, h, side),
        Fit::Contain => within_fits(w, side),
        Fit::Stretch => stretch_fits(w, side),
    }
}

/// `DynamicImage::width`.
#[verifier::external_body]
fn source_width(img: &DynamicImage) -> (w: u32)
    ensures
        w == image_width(*img),
{
    img.width()
}

/// `DynamicImage::height`.
#[verifier::external_body]
fn source_height(img: &DynamicImage) -> (h: u32)
    ensures
        h == image_rows(*img).len(),
{
    img.height()
}

/// `ImageBuffer::from_pixel`: a `width` by `height` raster whose every pixel
/// is `rgba`. That function panics when `4 * width` or `4 * width * height`
/// overflows `usize`, which the precondition rules out.
#[verifier::external_body]
fn solid_raster(width: u32, height: u32, rgba: [u8; 4]) -> (r: Raster)
    requires
        buffer_fits(width as nat, height as nat),
    ensures
        raster_width(r) == width,
        raster_rows(r) == solid_rows(width as nat, height as nat, rgba_pixel(rgba)),
{
    Raster { image: RgbaImage::from_pixel(width, height, Rgba(rgba)) }
}

/// `DynamicImage::resize_to_fill` with the Lanczos filter, as 8-bit RGBA:
/// `img` scaled, keeping its aspect ratio, until it covers a `side` by
/// `side` square, then cropped to that square around its centre. The crop
/// never exceeds `side` either way. For a non-empty image whose scaled size
/// stays within `u32` (the longer side times `side`, over the shorter side,
/// at most `u32::MAX`), the scaled image covers the square, so the tile is
/// exactly `side` square. The Lanczos weights are normalised, so an image of
/// one colour gives a tile of that colour and an opaque image an opaque tile,
/// as far as [`resampling_keeps_pixels`] reaches; other pixels are not
/// described. The precondition leaves out what panics: an empty image with
/// `side` at least 2 (the crop offset underflows) and buffers too large for
/// `usize`.
#[verifier::external_body]
fn fill_square(img: &DynamicImage, side: u32) -> (r: Raster)
    requires
        fill_fits(image_width(*img), image_height(*img), side as nat),
    ensures
        raster_wf(r),
        raster_width(r) <= side,
        raster_height(r) <= side,
        image_width(*img) >= 1 && image_height(*img) >= 1 && image_height(*img) * side
            <= u32::MAX * image_width(*img) && image_width(*img) * side <= u32::MAX
            * image_height(*img) ==> raster_width(r) == side && raster_height(r) == side,
        image_is_8bit(*img) ==> pixels_kept(*img, side as nat, raster_rows(r)),
{
    Raster { image: img.resize_to_fill(side, side, FilterType::Lanczos3).to_rgba8() }
}

/// `DynamicImage::resize` with the Lanczos filter, as 8-bit RGBA: `img`
/// scaled, keeping its aspect ratio, to the largest size that fits a `side`
/// by `side` square (at least 1 by 1, so a 0 side gives a 1 by 1 image).
/// For a positive side the result fits the square; for a non-empty image its
/// longer side is exactly `side` and its shorter side the proportional length
/// rounded, at least 1 ([`scaled_to_fit`]). One colour and opacity are kept
/// as for [`fill_square`]. The precondition rules out buffers too large for
/// `usize`.
#[verifier::external_body]
fn fit_within_square(img: &DynamicImage, side: u32) -> (r: Raster)
    requires
        within_fits(image_width(*img), side as nat),
    ensures
        raster_wf(r),
        side >= 1 ==> raster_width(r) <= side && raster_height(r) <= side,
        scaled_to_fit(
            image_width(*img),
            image_height(*img),
            side as nat,
            raster_width(r),
            raster_height(r),
        ),
        image_is_8bit(*img) ==> pixels_kept(*img, side as nat, raster_rows(r)),
{
    Raster { image: img.resize(side, side, FilterType::Lanczos3).to_rgba8() }
}

/// `DynamicImage::resize_exact` with the Lanczos filter, as 8-bit RGBA:
/// `img` scaled to a `side` by `side` square, ignoring its aspect ratio.
/// The size is claimed, and one colour and opacity are kept as for
/// [`fill_square`]; other pixels are not described. The precondition rules
/// out buffers too large for `usize`.
#[verifier::external_body]
fn stretch_square(img: &DynamicImage, side: u32) -> (r: Raster)
    requires
        stretch_fits(image_width(*img), side as nat),
    ensures
        raster_wf(r),
        raster_width(r) == side,
        raster_height(r) == side,
        image_is_8bit(*img) ==> pixels_kept(*img, side as nat, raster_rows(r)),
{
    Raster { image: img.resize_exact(side, side, FilterType::Lanczos3).to_rgba8() }
}

/// `ImageBuffer::width`.
#[verifier::external_body]
fn width_of(r: &Raster) -> (w: u32)
    ensures
        w == raster_width(*r),
{
    r.image.width()
}

/// `ImageBuffer::height`.
#[verifier::external_body]
fn height_of(r: &Raster) -> (h: u32)
    ensures
        h == raster_height(*r),
{
    r.image.height()
}

/// `imageops::overlay`: blends `top` onto `bottom` with its top-left corner
/// at `(x, y)`, clipping what falls outside `bottom`. Per pixel, `Rgba`
/// blending keeps the bottom pixel under a fully transparent top pixel and
/// takes a fully opaque top pixel as it is; see [`blended`].
#[verifier::external_body]
fn overlay_at(bottom: &mut Raster, top: &Raster, x: i64, y: i64)
    ensures
        raster_width(*final(bottom)) == raster_width(*old(bottom)),
        blended(
            raster_rows(*old(bottom)),
            raster_width(*old(bottom)),
            raster_rows(*final(bottom)),
            raster_rows(*top),
            raster_width(*top),
            x as int,
            y as int,
        ),
{
    image::imageops::overlay(&mut bottom.image, &top.image, x, y)
}

/// Why an image could not be fitted into its tile.
#[derive(Debug, Clone, Copy, PartialEq, Eq, Structural)]
pub enum FitError {
    /// The image scaled to fit the tile came out wider or taller than the
    /// tile, so it cannot be centred in it.
    LargerThanTile,
}

/// `tile` is the `tile_size` square of the colour `bg` with `scaled` blended
/// onto it, centred.
pub open spec fn contained(scaled: Raster, tile_size: nat, bg: [u8; 4], tile: Raster) -> bool {
    let w = raster_width(scaled);
    let h = raster_height(scaled);
    &&& raster_width(tile) == tile_size
    &&& blended(
        solid_rows(tile_size, tile_size, rgba_pixel(bg)),
        tile_size,
        raster_rows(tile),
        raster_rows(scaled),
        w,
        (tile_size - w) / 2,
        (tile_size - h) / 2,
    )
}

/// Centres the already scaled image `scaled` on a `tile_size` square of the
/// colour `bg`; refused exactly when `scaled` is wider or taller than the
/// tile.
pub fn contain_in_tile(scaled: Raster, tile_size: u32, bg: [u8; 4]) -> (res: Result<Raster, FitError>)
    requires
        buffer_fits(tile_size as nat, tile_size as nat),
    ensures
        res is Err <==> (raster_width(scaled) > tile_size || raster_height(scaled) > tile_size),
        res is Err ==> res == Err::<Raster, FitError>(FitError::LargerThanTile),
        res matches Ok(t) ==> contained(scaled, tile_size as nat, bg, t),
{
    let w = width_of(&scaled);
    let h = height_of(&scaled);
    if w > tile_size || h > tile_size {
        return Err(FitError::LargerThanTile);
    }
    let mut canvas = solid_raster(tile_size, tile_size, bg);
    let x = centered_offset(tile_size, w);
    let y = centered_offset(tile_size, h);
    overlay_at(&mut canvas, &scaled, x, y);
    Ok(canvas)
}

/// What fitting `img` into a `tile_size` square under the fit named `fit`
/// gives (see [`fit_image`]).
pub open spec fn fitted(
    img: DynamicImage,
    tile_size: u32,
    fit: Seq<char>,
    bg: [u8; 4],
    res: Result<Raster, FitError>,
) -> bool {
    let w = image_width(img);
    let h = image_height(img);
    &&& res is Err ==> fit_named(fit) == Fit::Contain && tile_size == 0 && res == Err::<
        Raster,
        FitError,
    >(FitError::LargerThanTile)
    &&& fit_named(fit) == Fit::Cover ==> (res matches Ok(t) && raster_wf(t) && raster_width(t)
        <= tile_size && raster_height(t) <= tile_size)
    &&& fit_named(fit) == Fit::Cover && w >= 1 && h >= 1 && h * tile_size <= u32::MAX * w && w
        * tile_size <= u32::MAX * h ==> (res matches Ok(t) && raster_width(t) == tile_size
        && raster_height(t) == tile_size)
    &&& fit_named(fit) == Fit::Stretch ==> (res matches Ok(t) && raster_wf(t) && raster_width(t)
        == tile_size && raster_height(t) == tile_size)
    &&& fit_named(fit) == Fit::Contain && tile_size >= 1 ==> res is Ok
    &&& fit_named(fit) != Fit::Contain ==> (res matches Ok(t) && pixels_kept(
        img,
        tile_size as nat,
        raster_rows(t),
    ))
    &&& fit_named(fit) == Fit::Contain ==> (res matches Ok(t) ==> exists|scaled: Raster|
        {
            &&& raster_width(scaled) <= tile_size && raster_height(scaled) <= tile_size
            &&& scaled_to_fit(w, h, tile_size as nat, raster_width(scaled), raster_height(scaled))
            &&& pixels_kept(img, tile_size as nat, raster_rows(scaled))
            &&& contained(scaled, tile_size as nat, bg, t)
        })
}

/// The tile, `tile_size` pixels square, that shows `img` under the fit named
/// `fit`: "cover" fills and crops (exactly `tile_size` square unless the
/// image is empty or of an aspect ratio so extreme that its scaled size
/// leaves `u32`), "contain" scales to fit and centres the result on a square
/// of the colour `bg`, any other name stretches. Only the contained fit into
/// a 0 pixel tile can be refused, when the scaled image exceeds the tile;
/// what it gives otherwise is [`contained`] of some image that fits the
/// tile. The buffers the fit allocates must fit `usize` ([`fit_fits`]).
pub fn fit_image(img: DynamicImage, tile_size: u32, fit: &str, bg: [u8; 4]) -> (res: Result<
    Raster,
    FitError,
>)
    requires
        fit_fits(fit_named(fit@), image_width(img), image_height(img), tile_size as nat),
    ensures
        fitted(img, tile_size, fit@, bg, res),
{
    match parse_fit(fit) {
        Fit::Cover => Ok(fill_square(&img, tile_size)),
        Fit::Contain => {
            let scaled = fit_within_square(&img, tile_size);
            let ghost s = scaled;
            let res = contain_in_tile(scaled, tile_size, bg);
            proof {
                if res is Ok {
                    let t = res->Ok_0;
                    assert(raster_width(s) <= tile_size && raster_height(s) <= tile_size
                        && scaled_to_fit(
                        image_width(img),
                        image_height(img),
                        tile_size as nat,
                        raster_width(s),
                        raster_height(s),
                    ) && pixels_kept(img, tile_size as nat, raster_rows(s)) && contained(
                        s,
                        tile_size as nat,
                        bg,
                        t,
                    ));
                }
            }
            res
        },
        Fit::Stretch => Ok(stretch_square(&img, tile_size)),
    }
}

/// Whether a buffer `width` by `height` of at most four channels fits
/// `usize`.
fn buffer_fits_check(width: u64, height: u64) -> (r: bool)
    ensures
        r == buffer_fits(width as nat, height as nat),
{
    let w4: u128 = (width as u128) * 4;
    match w4.checked_mul(height as u128) {
        None => false,
        Some(p) => w4 <= usize::MAX as u128 && p <= usize::MAX as u128,
    }
}

/// Whether [`fit_fits`] holds.
fn fit_fits_check(fit: Fit, w: u32, h: u32, side: u32) -> (r: bool)
    ensures
        r == fit_fits(fit, w as nat, h as nat, side as nat),
{
    match fit {
        Fit::Cover => {
            let mn = if w < h {
                w
            } else {
                h
            };
            if mn == 0 {
                (side == 0 && buffer_fits_check(w as u64, 1)) || (w == 0 && h == 0 && side <= 1)
            } else {
                assert((side as nat) * (w as nat) <= u32::MAX * u32::MAX) by (nonlinear_arith);
                assert((side as nat) * (h as nat) <= u32::MAX * u32::MAX) by (nonlinear_arith);
                assert((side as nat) * (w as nat) / (mn as nat) <= (side as nat) * (w as nat))
                    by (nonlinear_arith)
                    requires
                        mn >= 1,
                ;
                assert((side as nat) * (h as nat) / (mn as nat) <= (side as nat) * (h as nat))
                    by (nonlinear_arith)
                    requires
                        mn >= 1,
                ;
                let a: u64 = (side as u64) * (w as u64) / (mn as u64) + 1;
                let b: u64 = (side as u64) * (h as u64) / (mn as u64) + 1;
                buffer_fits_check(w as u64, b) && buffer_fits_check(a, b) && buffer_fits_check(
                    side as u64,
                    side as u64,
                )
            }
        },
        Fit::Contain => {
            let s1: u32 = if side == 0 {
                1
            } else {
                side
            };
            buffer_fits_check(w as u64, s1 as u64) && buffer_fits_check(s1 as u64, s1 as u64)
        },
        Fit::Stretch => buffer_fits_check(w as u64, side as u64) && buffer_fits_check(
            side as u64,
            side as u64,
        ),
    }
}

/// [`fit_image`] where the buffers the fit allocates fit `usize`, and `None`
/// (with nothing done) where they do not.
pub fn fit_image_checked(img: DynamicImage, tile_size: u32, fit: &str, bg: [u8; 4]) -> (res:
    Option<Result<Raster, FitError>>)
    ensures
        res is None <==> !fit_fits(
            fit_named(fit@),
            image_width(img),
            image_height(img),
            tile_size as nat,
        ),
        res matches Some(r) ==> fitted(img, tile_size, fit@, bg, r),
{
    let w = source_width(&img);
    let h = source_height(&img);
    if fit_fits_check(parse_fit(fit), w, h, tile_size) {
        Some(fit_image(img, tile_size, fit, bg))
    } else {
        None
    }
}

/// The empty canvas of a grid `side` tiles wide and high, in the colour `bg`:
/// `tile_size * side` pixels square, every pixel `bg`.
pub fn new_canvas(side: u32, tile_size: u32, bg: [u8; 4]) -> (canvas: Raster)
    requires
        tile_size * side <= u32::MAX,
        buffer_fits((tile_size * side) as nat, (tile_size * side) as nat),
    ensures
        raster_width(canvas) == tile_size * side,
        raster_rows(canvas) == solid_rows(
            (tile_size * side) as nat,
            (tile_size * side) as nat,
            rgba_pixel(bg),
        ),
{
    let extent = canvas_extent(side, tile_size);
    solid_raster(extent, extent, bg)
}

/// Places `tile` as tile number `i` of a grid `cols` tiles wide: blended onto
/// the canvas with its top-left corner at the position [`tile_origin`]
/// gives.
pub fn place_tile(canvas: &mut Raster, tile: &Raster, i: usize, cols: u32, tile_size: u32)
    requires
        cols > 0,
        ((i as u32) % cols) * tile_size <= i64::MAX,
        ((i as u32) / cols) * tile_size <= i64::MAX,
    ensures
        raster_width(*final(canvas)) == raster_width(*old(canvas)),
        blended(
            raster_rows(*old(canvas)),
            raster_width(*old(canvas)),
            raster_rows(*final(canvas)),
            raster_rows(*tile),
            raster_width(*tile),
            ((i as u32) % cols) * tile_size,
            ((i as u32) / cols) * tile_size,
        ),
{
    let (x, y) = tile_origin(i, cols, tile_size);
    overlay_at(canvas, tile, x, y);
}

/// Side, in pixels, of the example images.
pub const EXAMPLE_SIDE: u32 = 400;

/// A square example image, 400 pixels wide and high, every pixel `rgba`.
pub fn example_image(rgba: [u8; 4]) -> (img: Raster)
    ensures
        raster_width(img) == EXAMPLE_SIDE,
        raster_rows(img) == solid_rows(EXAMPLE_SIDE as nat, EXAMPLE_SIDE as nat, rgba_pixel(rgba)),
{
    assert(buffer_fits(EXAMPLE_SIDE as nat, EXAMPLE_SIDE as nat));
    solid_raster(EXAMPLE_SIDE, EXAMPLE_SIDE, rgba)
}

/// One example image: the folder it is written to, its file name and its
/// colour.
pub struct ExampleImage {
    pub folder: String,
    pub file_name: String,
    pub rgba: [u8; 4],
}

/// Folder of the flower examples.
pub open spec fn flower_folder() -> Seq<char> {
    "images/flowers"@
}

/// Folder of the animal examples.
pub open spec fn animal_folder() -> Seq<char> {
    "images/animals"@
}

/// The example images: four flowers as JPEG files and four animals as PNG
/// files, each one colour.
pub open spec fn example_entries() -> Seq<(Seq<char>, Seq<char>, Seq<u8>)> {
    seq![
        (flower_folder(), "rose.jpg"@, seq![220u8, 20u8, 60u8, 255u8]),
        (flower_folder(), "daisy.jpg"@, seq![255u8, 255u8, 0u8, 255u8]),
        (flower_folder(), "tulip.jpg"@, seq![255u8, 105u8, 180u8, 255u8]),
        (flower_folder(), "orchid.jpg"@, seq![138u8, 43u8, 226u8, 255u8]),
        (animal_folder(), "lion.png"@, seq![218u8, 165u8, 32u8, 255u8]),
        (animal_folder(), "tiger.png"@, seq![255u8, 140u8, 0u8, 255u8]),
        (animal_folder(), "bear.png"@, seq![139u8, 69u8, 19u8, 255u8]),
        (animal_folder(), "wolf.png"@, seq![112u8, 128u8, 144u8, 255u8]),
    ]
}

fn example(folder: &str, file_name: &str, rgba: [u8; 4]) -> (e: ExampleImage)
    ensures
        e.folder@ == folder@,
        e.file_name@ == file_name@,
        e.rgba == rgba,
{
    ExampleImage { folder: folder.to_owned(), file_name: file_name.to_owned(), rgba }
}

/// The example images, in the order of [`example_entries`].
pub fn example_catalog() -> (c: Vec<ExampleImage>)
    ensures
        c@.len() == example_entries().len(),
        forall|k: int|
            0 <= k < c@.len() ==> {
                &&& #[trigger] c@[k].folder@ == example_entries()[k].0
                &&& c@[k].file_name@ == example_entries()[k].1
                &&& c@[k].rgba@ == example_entries()[k].2
            },
{
    let flowers = "images/flowers";
    let animals = "images/animals";
    let c = vec![
        example(flowers, "rose.jpg", [220, 20, 60, 255]),
        example(flowers, "daisy.jpg", [255, 255, 0, 255]),
        example(flowers, "tulip.jpg", [255, 105, 180, 255]),
        example(flowers, "orchid.jpg", [138, 43, 226, 255]),
        example(animals, "lion.png", [218, 165, 32, 255]),
        example(animals, "tiger.png", [255, 140, 0, 255]),
        example(animals, "bear.png", [139, 69, 19, 255]),
        example(animals, "wolf.png", [112, 128, 144, 255]),
    ];
    assert(c@[0].rgba@ =~= example_entries()[0].2);
    assert(c@[1].rgba@ =~= example_entries()[1].2);
    assert(c@[2].rgba@ =~= example_entries()[2].2);
    assert(c@[3].rgba@ =~= example_entries()[3].2);
    assert(c@[4].rgba@ =~= example_entries()[4].2);
    assert(c@[5].rgba@ =~= example_entries()[5].2);
    assert(c@[6].rgba@ =~= example_entries()[6].2);
    assert(c@[7].rgba@ =~= example_entries()[7].2);
    c
}

/// The examples are, in this order: rose (crimson 220, 20, 60), daisy
/// (yellow 255, 255, 0), tulip (hot pink 255, 105, 180) and orchid (violet
/// 138, 43, 226) as JPEG files in `images/flowers`; lion (goldenrod 218, 165,
/// 32), tiger (orange 255, 140, 0), bear (brown 139, 69, 19) and wolf (slate
/// grey 112, 128, 144) as PNG files in `images/animals`; all fully opaque.
pub proof fn lemma_example_catalog_contents()
    ensures
        example_entries().len() == 8,
        example_entries()[0] == ("images/flowers"@, "rose.jpg"@, seq![220u8, 20u8, 60u8, 255u8]),
        example_entries()[1] == ("images/flowers"@, "daisy.jpg"@, seq![255u8, 255u8, 0u8, 255u8]),
        example_entries()[2] == ("images/flowers"@, "tulip.jpg"@, seq![255u8, 105u8, 180u8, 255u8]),
        example_entries()[3] == ("images/flowers"@, "orchid.jpg"@, seq![138u8, 43u8, 226u8, 255u8]),
        example_entries()[4] == ("images/animals"@, "lion.png"@, seq![218u8, 165u8, 32u8, 255u8]),
        example_entries()[5] == ("images/animals"@, "tiger.png"@, seq![255u8, 140u8, 0u8, 255u8]),
        example_entries()[6] == ("images/animals"@, "bear.png"@, seq![139u8, 69u8, 19u8, 255u8]),
        example_entries()[7] == ("images/animals"@, "wolf.png"@, seq![112u8, 128u8, 144u8, 255u8]),
{
}

} // verus!
