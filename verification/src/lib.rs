//! Turns a thresholded raster image into an extruded triangle mesh.
//!
//! All geometry lives on an integer lattice whose unit is half a pixel, so
//! every comparison made while tracing, joining and nesting rings is exact.

pub mod area;
pub mod components;
pub mod convex;
pub mod earcut;
pub mod edge;
pub mod edge_collection;
pub mod frame;
pub mod island;
pub mod raster;
pub mod ribbon;
pub mod stl;
pub mod tracer;
pub mod tree;
pub mod triangle;
pub mod util;
pub mod vert;
pub mod vert_order;
pub mod winding;

use vstd::prelude::*;
use crate::components::utils::SplitColor;
use crate::edge_collection::{
    all_closed, attached, connect_at_back, first_match, lemma_add_edge_keeps_order,
    lemma_orientations_kept, orientations_found, ring_matches, rings_apart, spec_add_edge,
    spec_connect, spec_join, spec_tip_redundant, Edges,
};
use crate::raster::{pixel_index, GrayImage, Luma, Rgba, RgbaImage};
use crate::vert::{
    cell_segments, get_quad_edge, segments_made, spec_quad_edge, BorderCase, QuadCase, Vert,
    MAX_SIDE,
};

verus! {

/// Why an image could not be turned into a mesh.
#[derive(Clone, Copy, Debug, PartialEq, Eq, Structural)]
pub enum PipelineError {
    /// The bytes are not an image in a format that is read.
    DecodeError,
    /// The image has fewer than two pixels along a side, or more than
    /// `MAX_SIDE`.
    DimensionError,
    /// A ring could not be cut into triangles.
    TriangulationFailed,
}

/// The luminance of a pixel: `0.2126 R + 0.7152 G + 0.0722 B`, rounded
/// down. Alpha plays no part.
pub open spec fn luminance(p: Rgba) -> int {
    (2126 * p.r + 7152 * p.g + 722 * p.b) / 10000
}

/// Computes the luminance of a pixel.
pub fn pixel_luminance(p: Rgba) -> (l: u8)
    ensures
        l == luminance(p),
{
    let sum: u32 = 2126 * (p.r as u32) + 7152 * (p.g as u32) + 722 * (p.b as u32);
    (sum / 10000) as u8
}

pub open spec fn spec_rgb_to_greyscale(p: Rgba) -> Rgba {
    Rgba { r: luminance(p) as u8, g: luminance(p) as u8, b: luminance(p) as u8, a: 255 }
}

/// White where the pixel is brighter than the threshold, black where it
/// is not. White is made transparent and black opaque.
pub open spec fn spec_rgb_to_threshold(p: Rgba, threshold: u8) -> Rgba {
    if luminance(p) > threshold {
        Rgba { r: 255, g: 255, b: 255, a: 0 }
    } else {
        Rgba { r: 0, g: 0, b: 0, a: 255 }
    }
}

/// The opaque grey pixel with the luminance of `p`.
pub fn rgb_to_greyscale(p: Rgba) -> (q: Rgba)
    ensures
        q == spec_rgb_to_greyscale(p),
{
    let x: u8 = pixel_luminance(p);
    Rgba { r: x, g: x, b: x, a: 255 }
}

/// The black or white pixel that `p` becomes at the given threshold.
pub fn rgb_to_threshold(p: Rgba, threshold: u8) -> (q: Rgba)
    ensures
        q == spec_rgb_to_threshold(p, threshold),
{
    let x: u8 = pixel_luminance(p);
    if x > threshold {
        Rgba { r: 255, g: 255, b: 255, a: 0 }
    } else {
        Rgba { r: 0, g: 0, b: 0, a: 255 }
    }
}

/// Thresholding a pixel that was thresholded before changes nothing.
pub proof fn lemma_rgb_to_threshold_idempotent(p: Rgba, threshold: u8)
    ensures
        spec_rgb_to_threshold(spec_rgb_to_threshold(p, threshold), threshold)
            == spec_rgb_to_threshold(p, threshold),
{
}

/// Replaces every pixel by the grey pixel of its luminance.
pub fn greyscale_img(img: &mut RgbaImage)
    ensures
        final(img).width == old(img).width,
        final(img).height == old(img).height,
        final(img).pixels@ == old(img).pixels@.map_values(|p: Rgba| spec_rgb_to_greyscale(p)),
{
    let n: usize = img.pixels.len();
    let mut k: usize = 0;
    while k < n
        invariant
            k <= n,
            n == img.pixels@.len(),
            n == old(img).pixels@.len(),
            img.width == old(img).width,
            img.height == old(img).height,
            forall|j: int| 0 <= j < k ==> #[trigger] img.pixels@[j] == spec_rgb_to_greyscale(old(img).pixels@[j]),
            forall|j: int| k <= j < n ==> #[trigger] img.pixels@[j] == old(img).pixels@[j],
        decreases n - k,
    {
        let p: Rgba = img.pixels[k];
        img.pixels[k] = rgb_to_greyscale(p);
        k = k + 1;
    }
    assert(img.pixels@ =~= old(img).pixels@.map_values(|p: Rgba| spec_rgb_to_greyscale(p)));
}

/// The pixels of an image binarized at a threshold.
pub open spec fn spec_threshold(pixels: Seq<Rgba>, threshold: u8) -> Seq<Rgba> {
    pixels.map_values(|p: Rgba| spec_rgb_to_threshold(p, threshold))
}

/// Binarizes an image in place: pixels at most as bright as the threshold
/// become black, the others white.
pub fn threshold_img(img: &mut RgbaImage, threshold: u8)
    ensures
        final(img).width == old(img).width,
        final(img).height == old(img).height,
        final(img).pixels@ == spec_threshold(old(img).pixels@, threshold),
        old(img).wf() ==> final(img).wf(),
{
    let n: usize = img.pixels.len();
    let mut k: usize = 0;
    while k < n
        invariant
            k <= n,
            n == img.pixels@.len(),
            n == old(img).pixels@.len(),
            img.width == old(img).width,
            img.height == old(img).height,
            forall|j: int| 0 <= j < k ==> #[trigger] img.pixels@[j] == spec_rgb_to_threshold(old(img).pixels@[j], threshold),
            forall|j: int| k <= j < n ==> #[trigger] img.pixels@[j] == old(img).pixels@[j],
        decreases n - k,
    {
        let p: Rgba = img.pixels[k];
        img.pixels[k] = rgb_to_threshold(p, threshold);
        k = k + 1;
    }
    assert(img.pixels@ =~= spec_threshold(old(img).pixels@, threshold));
}

/// Binarizing twice at one threshold gives what binarizing once gives.
pub proof fn lemma_threshold_idempotent(pixels: Seq<Rgba>, threshold: u8)
    ensures
        spec_threshold(spec_threshold(pixels, threshold), threshold) == spec_threshold(
            pixels,
            threshold,
        ),
{
    let once = spec_threshold(pixels, threshold);
    let twice = spec_threshold(once, threshold);
    assert forall|k: int| 0 <= k < once.len() implies twice[k] == once[k] by {
        lemma_rgb_to_threshold_idempotent(pixels[k], threshold);
    }
    assert(twice =~= once);
}

pub open spec fn spec_gray_threshold(p: Luma, threshold: u8) -> Luma {
    if p.0 > threshold {
        Luma(255)
    } else {
        Luma(0)
    }
}

/// Makes a grey pixel white when it is brighter than the threshold and
/// black when it is not.
pub fn gray_threshold(p: &mut Luma, threshold: u8)
    ensures
        *final(p) == spec_gray_threshold(*old(p), threshold),
{
    if p.0 > threshold {
        p.0 = 255;
    } else {
        p.0 = 0;
    }
}

/// Binarizes a grey image in place.
pub fn threshold_grey_image(img: &mut GrayImage, threshold: u8)
    ensures
        final(img).width == old(img).width,
        final(img).height == old(img).height,
        final(img).pixels@ == old(img).pixels@.map_values(
            |p: Luma| spec_gray_threshold(p, threshold),
        ),
{
    let n: usize = img.pixels.len();
    let mut k: usize = 0;
    while k < n
        invariant
            k <= n,
            n == img.pixels@.len(),
            n == old(img).pixels@.len(),
            img.width == old(img).width,
            img.height == old(img).height,
            forall|j: int| 0 <= j < k ==> #[trigger] img.pixels@[j] == spec_gray_threshold(old(img).pixels@[j], threshold),
            forall|j: int| k <= j < n ==> #[trigger] img.pixels@[j] == old(img).pixels@[j],
        decreases n - k,
    {
        let mut p: Luma = img.pixels[k];
        gray_threshold(&mut p, threshold);
        img.pixels[k] = p;
        k = k + 1;
    }
    assert(img.pixels@ =~= old(img).pixels@.map_values(
        |p: Luma| spec_gray_threshold(p, threshold),
    ));
}

/// Maps every pixel of a grey image through a two-colour map.
pub fn threshold_img_buffer(image_buffer: GrayImage, cmap: SplitColor) -> (out: GrayImage)
    ensures
        out.width == image_buffer.width,
        out.height == image_buffer.height,
        out.pixels@ == image_buffer.pixels@.map_values(|p: Luma| cmap.spec_map_color(p)),
{
    let mut img = image_buffer;
    let n: usize = img.pixels.len();
    let mut k: usize = 0;
    while k < n
        invariant
            k <= n,
            n == img.pixels@.len(),
            n == image_buffer.pixels@.len(),
            img.width == image_buffer.width,
            img.height == image_buffer.height,
            forall|j: int| 0 <= j < k ==> #[trigger] img.pixels@[j] == cmap.spec_map_color(image_buffer.pixels@[j]),
            forall|j: int| k <= j < n ==> #[trigger] img.pixels@[j] == image_buffer.pixels@[j],
        decreases n - k,
    {
        let mut p: Luma = img.pixels[k];
        cmap.map_color(&mut p);
        img.pixels[k] = p;
        k = k + 1;
    }
    assert(img.pixels@ =~= image_buffer.pixels@.map_values(|p: Luma| cmap.spec_map_color(p)));
    img
}

/// The grey image of the luminances of a colour image.
pub fn into_luma8(image: RgbaImage) -> (out: GrayImage)
    ensures
        out.width == image.width,
        out.height == image.height,
        out.pixels@ == image.pixels@.map_values(|p: Rgba| Luma(luminance(p) as u8)),
{
    let n: usize = image.pixels.len();
    let mut pixels: Vec<Luma> = Vec::new();
    let mut k: usize = 0;
    while k < n
        invariant
            k <= n,
            n == image.pixels@.len(),
            pixels@.len() == k,
            forall|j: int| 0 <= j < k ==> #[trigger] pixels@[j] == Luma(luminance(image.pixels@[j]) as u8),
        decreases n - k,
    {
        pixels.push(Luma(pixel_luminance(image.pixels[k])));
        k = k + 1;
    }
    assert(pixels@ =~= image.pixels@.map_values(|p: Rgba| Luma(luminance(p) as u8)));
    GrayImage { width: image.width, height: image.height, pixels }
}

/// The image in black and white: the luminance of each pixel, mapped
/// through a two-colour map.
pub fn ret_thresholded_img(image: RgbaImage, cmap: SplitColor) -> (out: GrayImage)
    ensures
        out.width == image.width,
        out.height == image.height,
        out.pixels@ == image.pixels@.map_values(
            |p: Rgba| cmap.spec_map_color(Luma(luminance(p) as u8)),
        ),
{
    let greyed = into_luma8(image);
    let out = threshold_img_buffer(greyed, cmap);
    assert(out.pixels@ =~= image.pixels@.map_values(
        |p: Rgba| cmap.spec_map_color(Luma(luminance(p) as u8)),
    ));
    out
}

/// A pixel is foreground when its red channel is zero, as it is after
/// binarizing.
pub open spec fn is_foreground(pixels: Seq<Rgba>, width: u32, x: u32, y: u32) -> bool {
    pixels[pixel_index(width, x, y)].r == 0
}

/// The foreground of the four corners of the cell whose top-left pixel is
/// `(x, y)`.
pub open spec fn spec_cell_case(pixels: Seq<Rgba>, width: u32, x: u32, y: u32) -> QuadCase {
    (
        is_foreground(pixels, width, x, y),
        is_foreground(pixels, width, (x + 1) as u32, y),
        is_foreground(pixels, width, (x + 1) as u32, (y + 1) as u32),
        is_foreground(pixels, width, x, (y + 1) as u32),
    )
}

/// Reads the corners of the cell whose top-left pixel is `(x, y)`. There
/// is no such cell when the pixel lies in the last column or row, or
/// outside the image.
pub fn get_cell_case(image: &RgbaImage, x: u32, y: u32) -> (r: Result<QuadCase, PipelineError>)
    requires
        image.wf(),
    ensures
        match r {
            Ok(q) => x + 1 < image.width && y + 1 < image.height && q == spec_cell_case(
                image.pixels@,
                image.width,
                x,
                y,
            ),
            Err(e) => e == PipelineError::DimensionError && (x + 1 >= image.width || y + 1
                >= image.height),
        },
{
    if image.width() == 0 || x >= image.width() - 1 {
        return Err(PipelineError::DimensionError);
    }
    if image.height() == 0 || y >= image.height() - 1 {
        return Err(PipelineError::DimensionError);
    }
    let top_left = image.get_pixel(x, y).r == 0;
    let top_right = image.get_pixel(x + 1, y).r == 0;
    let bottom_right = image.get_pixel(x + 1, y + 1).r == 0;
    let bottom_left = image.get_pixel(x, y + 1).r == 0;
    Ok((top_left, top_right, bottom_right, bottom_left))
}

/// Which sides of the cell at `(x, y)` lie on the border of an image of
/// the given size.
pub open spec fn spec_border_case(width: u32, height: u32, x: u32, y: u32) -> BorderCase {
    (y == 0, x == width - 2, y == height - 2, x == 0)
}

/// The boundary segments of the cell at `(x, y)`.
pub open spec fn cell_rings(pixels: Seq<Rgba>, width: u32, height: u32, x: u32, y: u32) -> Seq<
    Seq<Vert>,
> {
    spec_quad_edge(
        spec_border_case(width, height, x, y),
        spec_cell_case(pixels, width, x, y),
        x,
        y,
        (height - 1) as u32,
    )
}

/// The segments of the first `ny` cells of column `x`, from the top.
pub open spec fn column_segments(pixels: Seq<Rgba>, width: u32, height: u32, x: u32, ny: nat) -> Seq<
    Seq<Vert>,
>
    decreases ny,
{
    if ny == 0 {
        Seq::empty()
    } else {
        column_segments(pixels, width, height, x, (ny - 1) as nat) + cell_rings(
            pixels,
            width,
            height,
            x,
            (ny - 1) as u32,
        )
    }
}

/// The segments of the first `nx` columns of cells, from the left.
pub open spec fn traced_segments(pixels: Seq<Rgba>, width: u32, height: u32, nx: nat) -> Seq<
    Seq<Vert>,
>
    decreases nx,
{
    if nx == 0 {
        Seq::empty()
    } else {
        traced_segments(pixels, width, height, (nx - 1) as nat) + column_segments(
            pixels,
            width,
            height,
            (nx - 1) as u32,
            (height - 1) as nat,
        )
    }
}

/// The open and closed rings that the assembler holds after it has taken
/// in the segments `segs` one after the other.
pub open spec fn spec_assemble(segs: Seq<Seq<Vert>>) -> (Seq<Seq<Vert>>, Seq<Seq<Vert>>)
    decreases segs.len(),
{
    if segs.len() == 0 {
        (Seq::empty(), Seq::empty())
    } else {
        let before = spec_assemble(segs.drop_last());
        spec_add_edge(before.0, before.1, segs.last())
    }
}

/// The open and the closed rings of a binarized image of the given size:
/// its cells' segments, column by column and from the top down in each,
/// taken in by the assembler.
pub open spec fn spec_edge_img(pixels: Seq<Rgba>, width: u32, height: u32) -> (
    Seq<Seq<Vert>>,
    Seq<Seq<Vert>>,
) {
    spec_assemble(traced_segments(pixels, width, height, (width - 1) as nat))
}

/// Traces the outline of the foreground of a binarized image and joins it
/// into rings.
///
/// An image with fewer than two pixels along a side has no cell to trace
/// and is refused.
pub fn edge_img(img: &RgbaImage) -> (r: Result<Edges, PipelineError>)
    requires
        img.wf(),
    ensures
        match r {
            Ok(e) => img.width >= 2 && img.height >= 2 && e.wf() && (
                e.open_rings(),
                e.closed_rings(),
            ) == spec_edge_img(img.pixels@, img.width, img.height) && orientations_found(
                e.closed_edges@,
            ),
            Err(e) => e == PipelineError::DimensionError && (img.width < 2 || img.height < 2),
        },
{
    if img.width() < 2 || img.height() < 2 {
        return Err(PipelineError::DimensionError);
    }
    let mut out = Edges::new();
    let width: u32 = img.width() - 1;
    let height: u32 = img.height() - 1;
    let ghost px = img.pixels@;
    let ghost mut done: Seq<Seq<Vert>> = Seq::empty();
    assert(out.open_rings() =~= Seq::empty());
    assert(out.closed_rings() =~= Seq::empty());
    let mut x: u32 = 0;
    while x < width
        invariant
            x <= width,
            img.wf(),
            px == img.pixels@,
            width == img.width - 1,
            height == img.height - 1,
            height >= 1,
            out.wf(),
            orientations_found(out.closed_edges@),
            (out.open_rings(), out.closed_rings()) == spec_assemble(done),
            done == traced_segments(px, img.width, img.height, x as nat),
        decreases width - x,
    {
        let mut y: u32 = 0;
        while y < height
            invariant
                x < width,
                y <= height,
                img.wf(),
                px == img.pixels@,
                width == img.width - 1,
                height == img.height - 1,
                out.wf(),
                orientations_found(out.closed_edges@),
                (out.open_rings(), out.closed_rings()) == spec_assemble(done),
                done == traced_segments(px, img.width, img.height, x as nat) + column_segments(
                    px,
                    img.width,
                    img.height,
                    x,
                    y as nat,
                ),
            decreases height - y,
        {
            let border_case = (y == 0, x == width - 1, y == height - 1, x == 0);
            let quad = match get_cell_case(img, x, y) {
                Ok(q) => q,
                Err(e) => {
                    return Err(e);
                },
            };
            let edges = get_quad_edge(border_case, quad, x, y, height);
            let ghost cell = cell_rings(px, img.width, img.height, x, y);
            let ghost before = done;
            let n: usize = edges.len();
            let mut k: usize = 0;
            while k < n
                invariant
                    k <= n,
                    n == edges@.len(),
                    x < MAX_SIDE,
                    y < height <= MAX_SIDE,
                    segments_made(edges@, cell_segments(border_case, quad), x, y, height),
                    cell == crate::edge::ring_views(edges@),
                    out.wf(),
                    orientations_found(out.closed_edges@),
                    (out.open_rings(), out.closed_rings()) == spec_assemble(done),
                    done == before + cell.take(k as int),
                decreases n - k,
            {
                let e = edges[k].clone();
                proof {
                    assert(edges@[k as int].wf());
                    assert(edges@[k as int]@.len() == 2);
                    assert(done.push(e@).drop_last() =~= done);
                    assert(before + cell.take(k + 1) =~= done.push(e@));
                }
                let ghost filed = out.closed_edges@;
                out.add_edge(e);
                proof {
                    done = done.push(e@);
                    if e@.first() == e@.last() {
                        assert forall|i: int| 0 <= i < e@.len() implies (#[trigger] e@[i]).x
                            == e@[0].x by {
                            assert(i == 0 || i == 1);
                        }
                        assert(out.closed_edges@.last() == e);
                    }
                    lemma_orientations_kept(filed, out.closed_edges@);
                }
                k = k + 1;
            }
            proof {
                assert(cell.take(n as int) =~= cell);
                assert(done =~= traced_segments(px, img.width, img.height, x as nat)
                    + column_segments(px, img.width, img.height, x, (y + 1) as nat));
            }
            y = y + 1;
        }
        x = x + 1;
    }
    Ok(out)
}

/// A cell without a foreground corner has no segment.
pub proof fn lemma_empty_cell(border_case: BorderCase, x: u32, y: u32, height: u32)
    ensures
        spec_quad_edge(border_case, (false, false, false, false), x, y, height) == Seq::<
            Seq<Vert>,
        >::empty(),
{
    assert(cell_segments(border_case, (false, false, false, false)) =~= Seq::empty());
    assert(spec_quad_edge(border_case, (false, false, false, false), x, y, height) =~= Seq::<
        Seq<Vert>,
    >::empty());
}

/// A column of cells in an image without foreground has no segment.
pub proof fn lemma_background_column(pixels: Seq<Rgba>, width: u32, height: u32, x: u32, ny: nat)
    requires
        width >= 2,
        height >= 2,
        x + 1 < width,
        ny <= height - 1,
        pixels.len() == width * height,
        forall|k: int| 0 <= k < pixels.len() ==> (#[trigger] pixels[k]).r != 0,
    ensures
        column_segments(pixels, width, height, x, ny) == Seq::<Seq<Vert>>::empty(),
    decreases ny,
{
    if ny > 0 {
        lemma_background_column(pixels, width, height, x, (ny - 1) as nat);
        let y = (ny - 1) as u32;
        crate::raster::lemma_pixel_index(width, height, x, y);
        crate::raster::lemma_pixel_index(width, height, (x + 1) as u32, y);
        crate::raster::lemma_pixel_index(width, height, (x + 1) as u32, (y + 1) as u32);
        crate::raster::lemma_pixel_index(width, height, x, (y + 1) as u32);
        assert(spec_cell_case(pixels, width, x, y) == (false, false, false, false));
        lemma_empty_cell(spec_border_case(width, height, x, y), x, y, (height - 1) as u32);
        assert(column_segments(pixels, width, height, x, ny) =~= Seq::<Seq<Vert>>::empty());
    }
}

/// An image without foreground has no segment at all.
pub proof fn lemma_background_trace(pixels: Seq<Rgba>, width: u32, height: u32, nx: nat)
    requires
        width >= 2,
        height >= 2,
        nx <= width - 1,
        pixels.len() == width * height,
        forall|k: int| 0 <= k < pixels.len() ==> (#[trigger] pixels[k]).r != 0,
    ensures
        traced_segments(pixels, width, height, nx) == Seq::<Seq<Vert>>::empty(),
    decreases nx,
{
    if nx > 0 {
        lemma_background_trace(pixels, width, height, (nx - 1) as nat);
        lemma_background_column(pixels, width, height, (nx - 1) as u32, (height - 1) as nat);
        assert(traced_segments(pixels, width, height, nx) =~= Seq::<Seq<Vert>>::empty());
    }
}

/// An image without foreground has no ring, open or closed.
pub proof fn lemma_background_has_no_rings(pixels: Seq<Rgba>, width: u32, height: u32)
    requires
        width >= 2,
        height >= 2,
        pixels.len() == width * height,
        forall|k: int| 0 <= k < pixels.len() ==> (#[trigger] pixels[k]).r != 0,
    ensures
        spec_edge_img(pixels, width, height) == (
            Seq::<Seq<Vert>>::empty(),
            Seq::<Seq<Vert>>::empty(),
        ),
{
    lemma_background_trace(pixels, width, height, (width - 1) as nat);
}

/// The pixel `(px, py)` is the only foreground pixel of the image.
pub open spec fn only_foreground(pixels: Seq<Rgba>, width: u32, height: u32, px: u32, py: u32) -> bool {
    forall|x: u32, y: u32|
        x < width && y < height ==> #[trigger] is_foreground(pixels, width, x, y) == (x == px && y
            == py)
}

/// The four corners of the diamond round the pixel `(px, py)`, half a
/// pixel from its centre: right, top, left, bottom.
pub open spec fn diamond_corner(height: u32, px: u32, py: u32, k: int) -> Vert {
    let cx = 2 * px;
    let cy = 2 * (height - 1) - 2 * py;
    if k == 0 {
        Vert { x: (cx + 1) as i64, y: cy as i64 }
    } else if k == 1 {
        Vert { x: cx as i64, y: (cy + 1) as i64 }
    } else if k == 2 {
        Vert { x: (cx - 1) as i64, y: cy as i64 }
    } else {
        Vert { x: cx as i64, y: (cy - 1) as i64 }
    }
}

/// The diamond round the pixel `(px, py)` as a closed ring that goes
/// round to the left, starting on the right.
pub open spec fn diamond(height: u32, px: u32, py: u32) -> Seq<Vert> {
    seq![
        diamond_corner(height, px, py, 0),
        diamond_corner(height, px, py, 1),
        diamond_corner(height, px, py, 2),
        diamond_corner(height, px, py, 3),
        diamond_corner(height, px, py, 0),
    ]
}

/// The segments of a column of cells in an image whose only foreground
/// pixel is `(px, py)`, an inner pixel: none in a column that does not
/// touch the pixel; in the column to its left, the sides of the diamond
/// from the top to the left and on to the bottom; in the column to its
/// right, those from the right to the top and from the bottom to the
/// right.
pub proof fn lemma_pixel_column(
    pixels: Seq<Rgba>,
    width: u32,
    height: u32,
    px: u32,
    py: u32,
    x: u32,
    ny: nat,
)
    requires
        1 <= px,
        px + 1 < width,
        1 <= py,
        py + 1 < height,
        x + 1 < width,
        ny <= height - 1,
        only_foreground(pixels, width, height, px, py),
    ensures
        column_segments(pixels, width, height, x, ny) == if x + 1 == px {
            let first = seq![
                diamond_corner(height, px, py, 1),
                diamond_corner(height, px, py, 2),
            ];
            let second = seq![
                diamond_corner(height, px, py, 2),
                diamond_corner(height, px, py, 3),
            ];
            if ny < py {
                Seq::<Seq<Vert>>::empty()
            } else if ny == py {
                seq![first]
            } else {
                seq![first, second]
            }
        } else if x == px {
            let first = seq![
                diamond_corner(height, px, py, 0),
                diamond_corner(height, px, py, 1),
            ];
            let second = seq![
                diamond_corner(height, px, py, 3),
                diamond_corner(height, px, py, 0),
            ];
            if ny < py {
                Seq::<Seq<Vert>>::empty()
            } else if ny == py {
                seq![first]
            } else {
                seq![first, second]
            }
        } else {
            Seq::<Seq<Vert>>::empty()
        },
    decreases ny,
{
    if ny > 0 {
        lemma_pixel_column(pixels, width, height, px, py, x, (ny - 1) as nat);
        let y = (ny - 1) as u32;
        let x1 = (x + 1) as u32;
        let y1 = (y + 1) as u32;
        assert(is_foreground(pixels, width, x, y) == (x == px && y == py));
        assert(is_foreground(pixels, width, x1, y) == (x1 == px && y == py));
        assert(is_foreground(pixels, width, x1, y1) == (x1 == px && y1 == py));
        assert(is_foreground(pixels, width, x, y1) == (x == px && y1 == py));
        let quad = spec_cell_case(pixels, width, x, y);
        let border = spec_border_case(width, height, x, y);
        let rows = (height - 1) as u32;
        let cell = cell_rings(pixels, width, height, x, y);
        let before = column_segments(pixels, width, height, x, (ny - 1) as nat);
        if x1 == px && y1 == py {
            assert(quad == (false, false, true, false));
            assert(cell_segments(border, quad) =~= seq![(5u8, 7u8)]);
            assert(cell =~= seq![
                seq![diamond_corner(height, px, py, 1), diamond_corner(height, px, py, 2)],
            ]);
            assert(before + cell =~= cell);
        } else if x1 == px && y == py {
            assert(quad == (false, true, false, false));
            assert(cell_segments(border, quad) =~= seq![(1u8, 5u8)]);
            assert(cell =~= seq![
                seq![diamond_corner(height, px, py, 2), diamond_corner(height, px, py, 3)],
            ]);
            assert(before + cell =~= seq![
                seq![diamond_corner(height, px, py, 1), diamond_corner(height, px, py, 2)],
                seq![diamond_corner(height, px, py, 2), diamond_corner(height, px, py, 3)],
            ]);
        } else if x == px && y1 == py {
            assert(quad == (false, false, false, true));
            assert(cell_segments(border, quad) =~= seq![(7u8, 3u8)]);
            assert(cell =~= seq![
                seq![diamond_corner(height, px, py, 0), diamond_corner(height, px, py, 1)],
            ]);
            assert(before + cell =~= cell);
        } else if x == px && y == py {
            assert(quad == (true, false, false, false));
            assert(cell_segments(border, quad) =~= seq![(3u8, 1u8)]);
            assert(cell =~= seq![
                seq![diamond_corner(height, px, py, 3), diamond_corner(height, px, py, 0)],
            ]);
            assert(before + cell =~= seq![
                seq![diamond_corner(height, px, py, 0), diamond_corner(height, px, py, 1)],
                seq![diamond_corner(height, px, py, 3), diamond_corner(height, px, py, 0)],
            ]);
        } else {
            assert(quad == (false, false, false, false));
            lemma_empty_cell(border, x, y, rows);
            assert(before + cell =~= before);
        }
    }
}

/// The segments traced in an image whose only foreground pixel is the
/// inner pixel `(px, py)`: the four sides of the diamond round it.
pub proof fn lemma_pixel_trace(
    pixels: Seq<Rgba>,
    width: u32,
    height: u32,
    px: u32,
    py: u32,
    nx: nat,
)
    requires
        1 <= px,
        px + 1 < width,
        1 <= py,
        py + 1 < height,
        nx <= width - 1,
        only_foreground(pixels, width, height, px, py),
    ensures
        traced_segments(pixels, width, height, nx) == if nx < px {
            Seq::<Seq<Vert>>::empty()
        } else if nx == px {
            seq![
                seq![diamond_corner(height, px, py, 1), diamond_corner(height, px, py, 2)],
                seq![diamond_corner(height, px, py, 2), diamond_corner(height, px, py, 3)],
            ]
        } else {
            seq![
                seq![diamond_corner(height, px, py, 1), diamond_corner(height, px, py, 2)],
                seq![diamond_corner(height, px, py, 2), diamond_corner(height, px, py, 3)],
                seq![diamond_corner(height, px, py, 0), diamond_corner(height, px, py, 1)],
                seq![diamond_corner(height, px, py, 3), diamond_corner(height, px, py, 0)],
            ]
        },
    decreases nx,
{
    if nx > 0 {
        lemma_pixel_trace(pixels, width, height, px, py, (nx - 1) as nat);
        lemma_pixel_column(pixels, width, height, px, py, (nx - 1) as u32, (height - 1) as nat);
        let before = traced_segments(pixels, width, height, (nx - 1) as nat);
        let column = column_segments(pixels, width, height, (nx - 1) as u32, (height - 1) as nat);
        if nx == px {
            assert(before + column =~= column);
        } else if nx == px + 1 {
            assert(before + column =~= seq![
                seq![diamond_corner(height, px, py, 1), diamond_corner(height, px, py, 2)],
                seq![diamond_corner(height, px, py, 2), diamond_corner(height, px, py, 3)],
                seq![diamond_corner(height, px, py, 0), diamond_corner(height, px, py, 1)],
                seq![diamond_corner(height, px, py, 3), diamond_corner(height, px, py, 0)],
            ]);
        } else {
            assert(before + column =~= before);
        }
    }
}

/// Joining a ring of fewer than five vertices to a segment, where the
/// shared vertex does not lie on a line with its neighbours, gives the
/// two laid end to end.
proof fn lemma_connect_short(t: Seq<Vert>, o: Seq<Vert>, joined: Seq<Vert>)
    requires
        2 <= t.len() <= 4,
        o.len() == 2,
        joined == spec_join(t, o),
        joined.len() < 6,
    ensures
        spec_connect(t, o) == joined,
{
    reveal(spec_connect);
}

/// The four sides of the diamond round a pixel, taken in by the
/// assembler in the order in which they are traced, make one closed ring
/// and leave no ring open.
pub proof fn lemma_diamond_assembles(height: u32, px: u32, py: u32)
    requires
        1 <= px,
        1 <= py,
        py + 1 < height,
    ensures
        spec_assemble(
            seq![
                seq![diamond_corner(height, px, py, 1), diamond_corner(height, px, py, 2)],
                seq![diamond_corner(height, px, py, 2), diamond_corner(height, px, py, 3)],
                seq![diamond_corner(height, px, py, 0), diamond_corner(height, px, py, 1)],
                seq![diamond_corner(height, px, py, 3), diamond_corner(height, px, py, 0)],
            ],
        ) == (Seq::<Seq<Vert>>::empty(), seq![diamond(height, px, py)]),
{
    let r = diamond_corner(height, px, py, 0);
    let t = diamond_corner(height, px, py, 1);
    let l = diamond_corner(height, px, py, 2);
    let b = diamond_corner(height, px, py, 3);
    let s1 = seq![t, l];
    let s2 = seq![l, b];
    let s3 = seq![r, t];
    let s4 = seq![b, r];
    let none = Seq::<Seq<Vert>>::empty();
    let segs4 = seq![s1, s2, s3, s4];
    let segs3 = seq![s1, s2, s3];
    let segs2 = seq![s1, s2];
    let segs1 = seq![s1];
    assert(segs4.drop_last() =~= segs3);
    assert(segs3.drop_last() =~= segs2);
    assert(segs2.drop_last() =~= segs1);
    assert(segs1.drop_last() =~= none);
    assert(spec_assemble(none) == (none, none));
    let cx = 2 * px;
    let cy = 2 * (height - 1) - 2 * py;
    assert(r.x == cx + 1 && r.y == cy);
    assert(t.x == cx && t.y == cy + 1);
    assert(l.x == cx - 1 && l.y == cy);
    assert(b.x == cx && b.y == cy - 1);
    assert(!spec_tip_redundant(t, l, b)) by {
        assert((l.y - t.y) * (b.x - l.x) == -1) by (nonlinear_arith)
            requires
                l.y - t.y == -1,
                b.x - l.x == 1,
        ;
        assert((b.y - l.y) * (l.x - t.x) == 1) by (nonlinear_arith)
            requires
                b.y - l.y == -1,
                l.x - t.x == -1,
        ;
    }
    assert(!spec_tip_redundant(r, t, l)) by {
        assert((t.y - r.y) * (l.x - t.x) == -1) by (nonlinear_arith)
            requires
                t.y - r.y == 1,
                l.x - t.x == -1,
        ;
        assert((l.y - t.y) * (t.x - r.x) == 1) by (nonlinear_arith)
            requires
                l.y - t.y == -1,
                t.x - r.x == -1,
        ;
    }
    assert(!spec_tip_redundant(l, b, r)) by {
        assert((b.y - l.y) * (r.x - b.x) == -1) by (nonlinear_arith)
            requires
                b.y - l.y == -1,
                r.x - b.x == 1,
        ;
        assert((r.y - b.y) * (b.x - l.x) == 1) by (nonlinear_arith)
            requires
                r.y - b.y == 1,
                b.x - l.x == 1,
        ;
    }

    // the first side opens a ring
    assert(first_match(none, s1, 0) == 0);
    assert(spec_add_edge(none, none, s1) == (none.push(s1), none));
    assert(none.push(s1) =~= seq![s1]);
    assert(spec_assemble(segs1) == (seq![s1], none));

    // the second goes on at its end
    let open1 = seq![s1];
    assert(ring_matches(open1[0], s2));
    assert(first_match(open1, s2, 0) == 0);
    assert(first_match(open1, s2, 1) == 1);
    assert(attached(s1, s2) =~= seq![b]);
    assert(!spec_tip_redundant(t, l, b));
    let j2 = seq![t, l, b];
    assert(spec_join(s1, s2) =~= j2);
    lemma_connect_short(s1, s2, j2);
    assert(open1.update(0, j2) =~= seq![j2]);
    assert(spec_add_edge(open1, none, s2) == (seq![j2], none));
    assert(spec_assemble(segs2) == (seq![j2], none));

    // the third goes on before its start
    let open2 = seq![j2];
    assert(ring_matches(open2[0], s3));
    assert(first_match(open2, s3, 0) == 0);
    assert(first_match(open2, s3, 1) == 1);
    assert(!connect_at_back(j2, s3));
    assert(s3.drop_last() =~= seq![r]);
    assert(seq![r].reverse() =~= seq![r]);
    assert(attached(j2, s3) =~= seq![r]);
    assert(!spec_tip_redundant(r, t, l));
    let j3 = seq![r, t, l, b];
    assert(spec_join(j2, s3) =~= j3);
    lemma_connect_short(j2, s3, j3);
    assert(open2.update(0, j3) =~= seq![j3]);
    assert(spec_add_edge(open2, none, s3) == (seq![j3], none));
    assert(spec_assemble(segs3) == (seq![j3], none));

    // the fourth closes the ring
    let open3 = seq![j3];
    assert(ring_matches(open3[0], s4));
    assert(first_match(open3, s4, 0) == 0);
    assert(first_match(open3, s4, 1) == 1);
    assert(attached(j3, s4) =~= seq![r]);
    assert(!spec_tip_redundant(l, b, r));
    let j4 = seq![r, t, l, b, r];
    assert(spec_join(j3, s4) =~= j4);
    lemma_connect_short(j3, s4, j4);
    assert(open3.remove(0) =~= none);
    assert(none.push(j4) =~= seq![j4]);
    assert(j4 =~= diamond(height, px, py));
    assert(spec_add_edge(open3, none, s4) == (none, seq![j4]));
}

/// A single foreground pixel inside the image gives exactly one closed
/// ring, of four segments: the diamond round the pixel. No ring stays
/// open.
pub proof fn lemma_single_pixel_ring(pixels: Seq<Rgba>, width: u32, height: u32, px: u32, py: u32)
    requires
        1 <= px,
        px + 1 < width,
        1 <= py,
        py + 1 < height,
        only_foreground(pixels, width, height, px, py),
    ensures
        spec_edge_img(pixels, width, height) == (
            Seq::<Seq<Vert>>::empty(),
            seq![diamond(height, px, py)],
        ),
        diamond(height, px, py).len() == 5,
        diamond(height, px, py)[0] == diamond(height, px, py)[4],
{
    lemma_pixel_trace(pixels, width, height, px, py, (width - 1) as nat);
    lemma_diamond_assembles(height, px, py);
}

/// Every segment of the list has a vertex.
pub open spec fn segments_filled(segs: Seq<Seq<Vert>>) -> bool {
    forall|k: int| 0 <= k < segs.len() ==> (#[trigger] segs[k]).len() >= 1
}

/// Whatever segments the assembler takes in, its open rings stay apart,
/// each with distinct ends, and every closed ring ends where it starts.
pub proof fn lemma_assemble_keeps_order(segs: Seq<Seq<Vert>>)
    requires
        segments_filled(segs),
    ensures
        rings_apart(spec_assemble(segs).0),
        all_closed(spec_assemble(segs).1),
    decreases segs.len(),
{
    if segs.len() == 0 {
        reveal(rings_apart);
        reveal(all_closed);
    } else {
        let before = segs.drop_last();
        assert forall|k: int| 0 <= k < before.len() implies (#[trigger] before[k]).len() >= 1 by {
            assert(before[k] == segs[k]);
        }
        lemma_assemble_keeps_order(before);
        let state = spec_assemble(before);
        lemma_add_edge_keeps_order(state.0, state.1, segs.last());
    }
}

/// Every segment that is traced has two vertices.
pub proof fn lemma_traced_pairs(pixels: Seq<Rgba>, width: u32, height: u32, nx: nat)
    ensures
        segments_filled(traced_segments(pixels, width, height, nx)),
    decreases nx,
{
    if nx > 0 {
        lemma_traced_pairs(pixels, width, height, (nx - 1) as nat);
        lemma_column_pairs(pixels, width, height, (nx - 1) as u32, (height - 1) as nat);
        let before = traced_segments(pixels, width, height, (nx - 1) as nat);
        let column = column_segments(pixels, width, height, (nx - 1) as u32, (height - 1) as nat);
        let all = traced_segments(pixels, width, height, nx);
        assert forall|k: int| 0 <= k < all.len() implies (#[trigger] all[k]).len() >= 1 by {
            if k < before.len() {
                assert(all[k] == before[k]);
            } else {
                assert(all[k] == column[k - before.len()]);
            }
        }
    }
}

/// Every segment of a column of cells has two vertices.
pub proof fn lemma_column_pairs(pixels: Seq<Rgba>, width: u32, height: u32, x: u32, ny: nat)
    ensures
        segments_filled(column_segments(pixels, width, height, x, ny)),
    decreases ny,
{
    if ny > 0 {
        lemma_column_pairs(pixels, width, height, x, (ny - 1) as nat);
        let before = column_segments(pixels, width, height, x, (ny - 1) as nat);
        let cell = cell_rings(pixels, width, height, x, (ny - 1) as u32);
        let all = column_segments(pixels, width, height, x, ny);
        assert forall|k: int| 0 <= k < all.len() implies (#[trigger] all[k]).len() >= 1 by {
            if k < before.len() {
                assert(all[k] == before[k]);
            } else {
                assert(all[k] == cell[k - before.len()]);
                assert(cell[k - before.len()].len() == 2);
            }
        }
    }
}

/// Every closed ring that is made of the outline of an image ends where
/// it starts, and the rings left open have distinct ends and share none.
pub proof fn lemma_image_rings_close(pixels: Seq<Rgba>, width: u32, height: u32)
    ensures
        rings_apart(spec_edge_img(pixels, width, height).0),
        all_closed(spec_edge_img(pixels, width, height).1),
{
    lemma_traced_pairs(pixels, width, height, (width - 1) as nat);
    lemma_assemble_keeps_order(traced_segments(pixels, width, height, (width - 1) as nat));
}

} // verus!
