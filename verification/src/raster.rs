//! From raster image bytes to skeleton polylines: Sobel edges, Otsu
//! binarisation, Zhang-Suen thinning and skeleton tracing.
use vstd::prelude::*;
use crate::error::VectomancyError;
use crate::geometry::StyledPath;
use crate::grid::{FlatGrid, adjacent, col, row, lemma_col_row, lemma_col_row_of, lemma_index_in_bounds};
use crate::skeleton::{
    extract_paths, isolated, linked, on_some_path, pixel_of, pixel_path, pixel_paths, point_paths, skeleton_paths,
    law_skeleton_paths_cover, law_skeleton_paths_linked,
};
use crate::text::{format_hex_color, hex_color};
use crate::thinning::{zhang_suen_thinning, zs_thinned, law_thinning_only_clears};

verus! {

/// A decoded image as plain values: row-major 8-bit luma, and row-major
/// RGB with three bytes per pixel.
pub struct DecodedImage {
    pub width: u32,
    pub height: u32,
    pub luma: Vec<u8>,
    pub rgb: Vec<u8>,
}

/// A polyline through image pixels, given by column and row.
#[derive(Debug, Clone)]
pub struct Polyline {
    pub points: Vec<(i64, i64)>,
    pub closed: bool,
}

/// Path data together with its average colour, when one was measured.
#[derive(Debug, Clone)]
pub struct ColoredPath<T> {
    pub color_rgb: Option<(u8, u8, u8)>,
    pub data: T,
}

/// What `image::load_from_memory` decodes the bytes to (dimensions, luma
/// and RGB pixels), or nothing when it refuses them.
pub uninterp spec fn decoded_image(bytes: Seq<u8>) -> Option<(u32, u32, Seq<u8>, Seq<u8>)>;

/// What `imageproc::gradients::sobel_gradients` computes for a luma image:
/// the row-major Sobel gradient magnitudes.
pub uninterp spec fn sobel_gradients_of(width: u32, height: u32, luma: Seq<u8>) -> Seq<u16>;

/// What `imageproc::contrast::otsu_level` computes for a luma image.
pub uninterp spec fn otsu_level_of(width: u32, height: u32, luma: Seq<u8>) -> u8;

/// Calls `image::load_from_memory` and converts the image with
/// `to_luma8` and `to_rgb8`. The contract ties the outcome to
/// `decoded_image` of the bytes, and states the buffer sizes that the
/// `image` documentation gives for 8-bit luma and RGB buffers.
#[verifier::external_body]
fn call_load_from_memory(bytes: &[u8]) -> (r: Result<DecodedImage, String>)
    ensures
        match r {
            Ok(img) => decoded_image(bytes@) == Some((img.width, img.height, img.luma@, img.rgb@))
                && img.luma@.len() == img.width * img.height
                && img.rgb@.len() == 3 * img.width * img.height,
            Err(_) => decoded_image(bytes@) is None,
        },
{
    let img = image::load_from_memory(bytes).map_err(|e| e.to_string())?;
    Ok(DecodedImage {
        width: img.width(),
        height: img.height(),
        luma: img.to_luma8().into_raw(),
        rgb: img.to_rgb8().into_raw(),
    })
}

/// Calls `imageproc::gradients::sobel_gradients` on the luma image. The
/// contract names the result and states that it has one magnitude per pixel.
#[verifier::external_body]
fn call_sobel_gradients(width: u32, height: u32, luma: &Vec<u8>) -> (r: Vec<u16>)
    requires
        luma@.len() == width * height,
    ensures
        r@ == sobel_gradients_of(width, height, luma@),
        r@.len() == width * height,
{
    let img = image::GrayImage::from_raw(width, height, luma.clone()).unwrap();
    imageproc::gradients::sobel_gradients(&img).into_raw()
}

/// Calls `imageproc::contrast::otsu_level` on the luma image. Its source
/// forms the pixel count and each intensity times its histogram count in
/// `u32`, which overflows unless `otsu_fits` holds; the contract names the
/// threshold it returns.
#[verifier::external_body]
fn call_otsu_level(width: u32, height: u32, luma: &Vec<u8>) -> (r: u8)
    requires
        luma@.len() == width * height,
        otsu_fits(width, height, luma@),
    ensures
        r == otsu_level_of(width, height, luma@),
{
    let img = image::GrayImage::from_raw(width, height, luma.clone()).unwrap();
    imageproc::contrast::otsu_level(&img)
}

/// Edge strengths saturated to a byte.
pub open spec fn edge_levels(grad: Seq<u16>) -> Seq<u8> {
    grad.map_values(|v: u16| if v > 255 { 255u8 } else { v as u8 })
}

/// The binarised edge image, padded by one unset cell on every side:
/// a pixel is set when its edge strength exceeds the threshold.
pub open spec fn padded_edge_grid(w: int, h: int, edges: Seq<u8>, t: u8) -> Seq<bool> {
    Seq::new(
        ((w + 2) * (h + 2)) as nat,
        |i: int|
            {
                let x = col(w + 2, i);
                let y = row(w + 2, i);
                1 <= x <= w && 1 <= y <= h && edges[(y - 1) * w + (x - 1)] > t
            },
    )
}

/// The skeleton polylines of an edge image, in image pixels.
pub open spec fn raster_skeleton(w: int, h: int, edges: Seq<u8>, t: u8) -> Seq<Seq<(i64, i64)>> {
    let g = padded_edge_grid(w, h, edges, t);
    pixel_paths(w + 2, skeleton_paths(zs_thinned(g, w + 2, h + 2), w + 2, h + 2))
}

/// Pixels `p` and `q` are distinct and touch, by a side or a corner.
pub open spec fn touching(p: (i64, i64), q: (i64, i64)) -> bool {
    &&& -1 <= q.0 - p.0 <= 1
    &&& -1 <= q.1 - p.1 <= 1
    &&& p != q
}

/// Every polyline traced from an edge image has at least two points; each
/// point is a pixel of the image whose edge strength exceeds the
/// threshold, and each point touches the next.
pub proof fn law_raster_paths_follow_edges(w: int, h: int, edges: Seq<u8>, t: u8)
    requires
        0 <= w <= u32::MAX,
        0 <= h <= u32::MAX,
        edges.len() == w * h,
    ensures
        forall|m: int|
            0 <= m < raster_skeleton(w, h, edges, t).len() ==> {
                let p = #[trigger] raster_skeleton(w, h, edges, t)[m];
                &&& p.len() >= 2
                &&& forall|j: int|
                    0 <= j < p.len() ==> in_image(w, h, #[trigger] p[j]) && edges[p[j].1 * w + p[j].0] > t
                &&& forall|j: int| 0 <= j < p.len() - 1 ==> #[trigger] touching(p[j], p[j + 1])
            },
{
    let pw = w + 2;
    let ph = h + 2;
    let g = padded_edge_grid(w, h, edges, t);
    let th = zs_thinned(g, pw, ph);
    let sk = skeleton_paths(th, pw, ph);
    assert(pw * ph >= 0) by (nonlinear_arith)
        requires pw >= 2, ph >= 2;
    law_thinning_only_clears(g, pw, ph);
    law_skeleton_paths_linked(th, pw, ph);
    assert forall|m: int| 0 <= m < raster_skeleton(w, h, edges, t).len() implies {
        let p = #[trigger] raster_skeleton(w, h, edges, t)[m];
        &&& p.len() >= 2
        &&& forall|j: int| 0 <= j < p.len() ==> in_image(w, h, #[trigger] p[j]) && edges[p[j].1 * w + p[j].0] > t
        &&& forall|j: int| 0 <= j < p.len() - 1 ==> #[trigger] touching(p[j], p[j + 1])
    } by {
        let c = sk[m];
        let p = raster_skeleton(w, h, edges, t)[m];
        assert(p == pixel_path(pw, c));
        assert(linked(th, pw, c) && c.len() >= 2);
        assert forall|j: int| 0 <= j < p.len() implies in_image(w, h, #[trigger] p[j]) && edges[p[j].1 * w
            + p[j].0] > t by {
            let cj = c[j];
            assert(0 <= cj < th.len() && th[cj]);
            assert(g[cj]);
            lemma_col_row(pw, ph, cj);
            assert(p[j] == pixel_of(pw, cj));
        }
        assert forall|j: int| 0 <= j < p.len() - 1 implies #[trigger] touching(p[j], p[j + 1]) by {
            let a = c[j];
            let b = c[j + 1];
            assert(adjacent(pw, a, b));
            assert(0 <= a < th.len() && 0 <= b < th.len());
            lemma_col_row(pw, ph, a);
            lemma_col_row(pw, ph, b);
            assert(p[j] == pixel_of(pw, a));
            assert(p[j + 1] == pixel_of(pw, b));
        }
    }
}

/// The thinned edge image of a `w` by `h` image, padded by one cell on
/// every side.
pub open spec fn thinned_edges(w: int, h: int, edges: Seq<u8>, t: u8) -> Seq<bool> {
    zs_thinned(padded_edge_grid(w, h, edges, t), w + 2, h + 2)
}

/// Every pixel left by thinning that touches another one lies on some
/// traced polyline.
pub proof fn law_raster_paths_cover(w: int, h: int, edges: Seq<u8>, t: u8)
    requires
        1 <= w <= u32::MAX,
        1 <= h <= u32::MAX,
        edges.len() == w * h,
    ensures
        forall|x: int, y: int|
            0 <= x < w && 0 <= y < h && #[trigger] thinned_edges(w, h, edges, t)[(y + 1) * (w + 2) + (x + 1)]
                && !isolated(thinned_edges(w, h, edges, t), w + 2, h + 2, (y + 1) * (w + 2) + (x + 1))
                ==> exists|m: int|
                0 <= m < raster_skeleton(w, h, edges, t).len() && #[trigger] raster_skeleton(w, h, edges, t)[m].contains(
                    (x as i64, y as i64),
                ),
{
    let pw = w + 2;
    let ph = h + 2;
    let g = padded_edge_grid(w, h, edges, t);
    let th = thinned_edges(w, h, edges, t);
    let sk = skeleton_paths(th, pw, ph);
    law_thinning_only_clears(g, pw, ph);
    law_skeleton_paths_cover(th, pw, ph);
    assert forall|x: int, y: int|
        0 <= x < w && 0 <= y < h && #[trigger] th[(y + 1) * pw + (x + 1)] && !isolated(th, pw, ph, (y + 1) * pw + (x + 1))
        implies exists|m: int|
        0 <= m < raster_skeleton(w, h, edges, t).len() && #[trigger] raster_skeleton(w, h, edges, t)[m].contains(
            (x as i64, y as i64),
        ) by {
        let c = (y + 1) * pw + (x + 1);
        lemma_col_row_of(pw, x + 1, y + 1);
        lemma_index_in_bounds(x + 1, y + 1, pw, ph);
        assert(on_some_path(sk, c));
        let m = choose|m: int| 0 <= m < sk.len() && #[trigger] sk[m].contains(c);
        let k = choose|k: int| 0 <= k < sk[m].len() && sk[m][k] == c;
        let p = raster_skeleton(w, h, edges, t)[m];
        assert(p == pixel_path(pw, sk[m]));
        assert(p[k] == pixel_of(pw, c));
        assert(p[k] == (x as i64, y as i64));
        assert(p.contains((x as i64, y as i64)));
        assert(raster_skeleton(w, h, edges, t).len() == sk.len());
    }
}

/// Pixel `p` lies in a `w` by `h` image.
pub open spec fn in_image(w: int, h: int, p: (i64, i64)) -> bool {
    0 <= p.0 < w && 0 <= p.1 < h
}

/// Sum of channel `c` over the points of `pts` that lie in the image.
pub open spec fn channel_total(rgb: Seq<u8>, w: int, h: int, pts: Seq<(i64, i64)>, c: int) -> int
    decreases pts.len(),
{
    if pts.len() == 0 {
        0
    } else {
        let p = pts.last();
        channel_total(rgb, w, h, pts.drop_last(), c) + if in_image(w, h, p) {
            rgb[3 * (p.1 * w + p.0) + c] as int
        } else {
            0
        }
    }
}

/// Number of points of `pts` that lie in the image.
pub open spec fn inside_count(w: int, h: int, pts: Seq<(i64, i64)>) -> int
    decreases pts.len(),
{
    if pts.len() == 0 {
        0
    } else {
        inside_count(w, h, pts.drop_last()) + if in_image(w, h, pts.last()) { 1int } else { 0int }
    }
}

/// The mean colour of the points of a path that lie in the image (each
/// channel rounded down), or nothing when none does.
pub open spec fn mean_color(rgb: Seq<u8>, w: int, h: int, pts: Seq<(i64, i64)>) -> Option<(u8, u8, u8)> {
    let n = inside_count(w, h, pts);
    if n == 0 {
        None
    } else {
        Some(
            (
                (channel_total(rgb, w, h, pts, 0) / n) as u8,
                (channel_total(rgb, w, h, pts, 1) / n) as u8,
                (channel_total(rgb, w, h, pts, 2) / n) as u8,
            ),
        )
    }
}

/// Channel totals are at most 255 per counted point.
pub proof fn lemma_channel_total_bound(rgb: Seq<u8>, w: int, h: int, pts: Seq<(i64, i64)>, c: int)
    ensures
        0 <= channel_total(rgb, w, h, pts, c) <= 255 * inside_count(w, h, pts),
        0 <= inside_count(w, h, pts) <= pts.len(),
    decreases pts.len(),
{
    if pts.len() > 0 {
        lemma_channel_total_bound(rgb, w, h, pts.drop_last(), c);
    }
}

/// Pixel `p` of an image `w` pixels wide has colour `col` in `rgb`.
pub open spec fn pixel_has_color(rgb: Seq<u8>, w: int, p: (i64, i64), col: (u8, u8, u8)) -> bool {
    &&& rgb[3 * (p.1 * w + p.0)] == col.0
    &&& rgb[3 * (p.1 * w + p.0) + 1] == col.1
    &&& rgb[3 * (p.1 * w + p.0) + 2] == col.2
}

/// Over points whose in-image pixels all have channel value `v`, the
/// channel total is `v` per counted point.
proof fn lemma_channel_total_uniform(rgb: Seq<u8>, w: int, h: int, pts: Seq<(i64, i64)>, c: int, v: int)
    requires
        forall|k: int| 0 <= k < pts.len() && in_image(w, h, #[trigger] pts[k]) ==> rgb[3 * (pts[k].1 * w + pts[k].0) + c] == v,
    ensures
        channel_total(rgb, w, h, pts, c) == v * inside_count(w, h, pts),
    decreases pts.len(),
{
    if pts.len() > 0 {
        let init = pts.drop_last();
        assert forall|k: int| 0 <= k < init.len() && in_image(w, h, #[trigger] init[k]) implies rgb[3 * (init[k].1 * w
            + init[k].0) + c] == v by {
            assert(init[k] == pts[k]);
        }
        lemma_channel_total_uniform(rgb, w, h, init, c, v);
        assert(v * inside_count(w, h, pts) == v * inside_count(w, h, init) + if in_image(w, h, pts.last()) {
            v
        } else {
            0
        }) by (nonlinear_arith)
            requires
                inside_count(w, h, pts) == inside_count(w, h, init) + if in_image(w, h, pts.last()) { 1int } else { 0int },
        ;
    }
}

/// A path whose pixels in the image all have one colour gets that colour,
/// when at least one of its points lies in the image.
pub proof fn law_uniform_path_keeps_its_color(rgb: Seq<u8>, w: int, h: int, pts: Seq<(i64, i64)>, col: (u8, u8, u8))
    requires
        forall|k: int| 0 <= k < pts.len() && in_image(w, h, #[trigger] pts[k]) ==> pixel_has_color(rgb, w, pts[k], col),
        exists|k: int| 0 <= k < pts.len() && in_image(w, h, #[trigger] pts[k]),
    ensures
        mean_color(rgb, w, h, pts) == Some(col),
{
    lemma_channel_total_uniform(rgb, w, h, pts, 0, col.0 as int);
    lemma_channel_total_uniform(rgb, w, h, pts, 1, col.1 as int);
    lemma_channel_total_uniform(rgb, w, h, pts, 2, col.2 as int);
    lemma_inside_count_positive(w, h, pts);
    let n = inside_count(w, h, pts);
    assert((col.0 as int * n) / n == col.0 as int) by (nonlinear_arith) requires n > 0;
    assert((col.1 as int * n) / n == col.1 as int) by (nonlinear_arith) requires n > 0;
    assert((col.2 as int * n) / n == col.2 as int) by (nonlinear_arith) requires n > 0;
}

/// A point in the image is counted.
proof fn lemma_inside_count_positive(w: int, h: int, pts: Seq<(i64, i64)>)
    requires
        exists|k: int| 0 <= k < pts.len() && in_image(w, h, #[trigger] pts[k]),
    ensures
        inside_count(w, h, pts) > 0,
    decreases pts.len(),
{
    let k = choose|k: int| 0 <= k < pts.len() && in_image(w, h, #[trigger] pts[k]);
    if k == pts.len() - 1 {
        lemma_inside_count_nonneg(w, h, pts.drop_last());
    } else {
        let init = pts.drop_last();
        assert(init[k] == pts[k]);
        lemma_inside_count_positive(w, h, init);
    }
}

/// Counts are never negative.
proof fn lemma_inside_count_nonneg(w: int, h: int, pts: Seq<(i64, i64)>)
    ensures
        inside_count(w, h, pts) >= 0,
    decreases pts.len(),
{
    if pts.len() > 0 {
        lemma_inside_count_nonneg(w, h, pts.drop_last());
    }
}

/// No cell of the padded grid is set when no edge strength exceeds the
/// threshold.
proof fn lemma_quiet_grid_empty(w: int, h: int, edges: Seq<u8>, t: u8)
    requires
        0 <= w,
        0 <= h,
        edges.len() == w * h,
        forall|i: int| 0 <= i < edges.len() ==> #[trigger] edges[i] <= t,
    ensures
        forall|i: int| 0 <= i < padded_edge_grid(w, h, edges, t).len() ==> !#[trigger] padded_edge_grid(w, h, edges, t)[i],
{
    let g = padded_edge_grid(w, h, edges, t);
    assert forall|i: int| 0 <= i < g.len() implies !#[trigger] g[i] by {
        let x = col(w + 2, i);
        let y = row(w + 2, i);
        if 1 <= x <= w && 1 <= y <= h {
            lemma_index_in_bounds(x - 1, y - 1, w, h);
        }
    }
}

/// When no edge strength exceeds the threshold, no polyline is traced.
pub proof fn law_quiet_image_has_no_paths(w: int, h: int, edges: Seq<u8>, t: u8)
    requires
        0 <= w,
        0 <= h,
        edges.len() == w * h,
        forall|i: int| 0 <= i < edges.len() ==> #[trigger] edges[i] <= t,
    ensures
        raster_skeleton(w, h, edges, t).len() == 0,
{
    let pw = w + 2;
    let ph = h + 2;
    let g = padded_edge_grid(w, h, edges, t);
    lemma_quiet_grid_empty(w, h, edges, t);
    assert(pw * ph >= 0) by (nonlinear_arith)
        requires pw >= 2, ph >= 2;
    law_thinning_only_clears(g, pw, ph);
    let th = zs_thinned(g, pw, ph);
    assert forall|i: int| 0 <= i < th.len() implies !#[trigger] th[i] by {
        assert(!g[i]);
    }
    law_skeleton_paths_linked(th, pw, ph);
    let sk = skeleton_paths(th, pw, ph);
    if sk.len() > 0 {
        assert(linked(th, pw, sk[0]) && sk[0].len() >= 2);
        assert(th[sk[0][0]]);
        assert(false);
    }
}

/// Number of entries of `s` equal to `v`.
pub open spec fn count_of(s: Seq<u8>, v: int) -> nat
    decreases s.len(),
{
    if s.len() == 0 {
        0
    } else {
        count_of(s.drop_last(), v) + if s.last() == v { 1nat } else { 0nat }
    }
}

/// A value occurs at most as often as the sequence is long.
pub proof fn lemma_count_of_bound(s: Seq<u8>, v: int)
    ensures
        count_of(s, v) <= s.len(),
    decreases s.len(),
{
    if s.len() > 0 {
        lemma_count_of_bound(s.drop_last(), v);
    }
}

/// The products that Otsu's method forms in `u32` fit there: the pixel
/// count, and each intensity times the number of pixels that have it.
pub open spec fn otsu_fits(w: u32, h: u32, edges: Seq<u8>) -> bool {
    &&& w * h <= u32::MAX
    &&& forall|t: int| 0 <= t < 256 ==> t * #[trigger] count_of(edges, t) <= u32::MAX
}

/// An edge image can be thresholded by Otsu's method and its padded grid
/// indexed by `usize`.
pub open spec fn raster_fits(w: u32, h: u32, edges: Seq<u8>) -> bool {
    &&& otsu_fits(w, h, edges)
    &&& (w + 2) * (h + 2) <= usize::MAX
}

/// The skeleton of an edge image thresholded by Otsu's method.
pub open spec fn otsu_skeleton(w: u32, h: u32, edges: Seq<u8>) -> Seq<Seq<(i64, i64)>> {
    raster_skeleton(w as int, h as int, edges, otsu_level_of(w, h, edges))
}

/// The colour measured for a path: its mean colour when colours are asked
/// for, else none.
pub open spec fn path_rgb(rgb: Seq<u8>, w: u32, h: u32, pts: Seq<(i64, i64)>, color: bool) -> Option<(u8, u8, u8)> {
    if color {
        mean_color(rgb, w as int, h as int, pts)
    } else {
        None
    }
}

/// `paths` holds one coloured path per skeleton polyline of the edge image,
/// in order.
pub open spec fn colored_skeleton_of(
    paths: Seq<ColoredPath<Vec<(i64, i64)>>>,
    w: u32,
    h: u32,
    edges: Seq<u8>,
    rgb: Seq<u8>,
    color: bool,
) -> bool {
    let sk = otsu_skeleton(w, h, edges);
    &&& paths.len() == sk.len()
    &&& forall|i: int|
        0 <= i < paths.len() ==> {
            &&& (#[trigger] paths[i]).data@ == sk[i]
            &&& paths[i].color_rgb == path_rgb(rgb, w, h, sk[i], color)
        }
}

/// The view of an optional string.
pub open spec fn opt_text(s: Option<String>) -> Option<Seq<char>> {
    match s {
        Some(t) => Some(t@),
        None => None,
    }
}

/// The `#rrggbb` text of an optional colour.
pub open spec fn opt_hex(c: Option<(u8, u8, u8)>) -> Option<Seq<char>> {
    match c {
        Some(v) => Some(hex_color(v.0, v.1, v.2)),
        None => None,
    }
}

/// `styled` holds, per path of `paths`, an open polyline through the same
/// points, styled with the path's colour as `#rrggbb`.
pub open spec fn styled_from(styled: Seq<StyledPath<Polyline>>, paths: Seq<ColoredPath<Vec<(i64, i64)>>>) -> bool {
    &&& styled.len() == paths.len()
    &&& forall|i: int|
        0 <= i < styled.len() ==> {
            &&& (#[trigger] styled[i]).geometry.points@ == paths[i].data@
            &&& !styled[i].geometry.closed
            &&& opt_text(styled[i].color_style) == opt_hex(paths[i].color_rgb)
        }
}

/// `styled` holds one open polyline per skeleton polyline of the edge
/// image, in order, styled `#rrggbb` with its colour when one is measured.
pub open spec fn styled_skeleton_of(
    styled: Seq<StyledPath<Polyline>>,
    w: u32,
    h: u32,
    edges: Seq<u8>,
    rgb: Seq<u8>,
    color: bool,
) -> bool {
    let sk = otsu_skeleton(w, h, edges);
    &&& styled.len() == sk.len()
    &&& forall|i: int|
        0 <= i < styled.len() ==> {
            &&& (#[trigger] styled[i]).geometry.points@ == sk[i]
            &&& !styled[i].geometry.closed
            &&& opt_text(styled[i].color_style) == opt_hex(path_rgb(rgb, w, h, sk[i], color))
        }
}

/// The message given for an image whose edge histogram overflows the
/// arithmetic of Otsu's method.
pub open spec fn too_large_message() -> Seq<char> {
    "image too large for Otsu thresholding"@
}

/// Saturates each edge strength to a byte.
pub fn clamp_edges(grad: &Vec<u16>) -> (r: Vec<u8>)
    ensures
        r@ == edge_levels(grad@),
{
    let n = grad.len();
    let mut r: Vec<u8> = Vec::new();
    let mut i: usize = 0;
    while i < n
        invariant
            n == grad@.len(),
            i <= n,
            r@ == edge_levels(grad@).subrange(0, i as int),
        decreases n - i,
    {
        let v = grad[i];
        let e: u8 = if v > 255 { 255 } else { v as u8 };
        r.push(e);
        i = i + 1;
        assert(r@ =~= edge_levels(grad@).subrange(0, i as int));
    }
    assert(r@ =~= edge_levels(grad@));
    r
}

/// Binarises an edge image at `threshold` into a grid padded by one unset
/// cell on every side.
pub fn binarize_padded(width: u32, height: u32, edges: &Vec<u8>, threshold: u8) -> (g: FlatGrid)
    requires
        edges@.len() == width * height,
        (width + 2) * (height + 2) <= usize::MAX,
    ensures
        g.wf(),
        g.width == width + 2,
        g.height == height + 2,
        g.data@ == padded_edge_grid(width as int, height as int, edges@, threshold),
{
    proof {
        assert(width + 2 <= (width + 2) * (height + 2)) by (nonlinear_arith);
        assert(height + 2 <= (width + 2) * (height + 2)) by (nonlinear_arith);
    }
    let w = width as usize;
    let h = height as usize;
    let pw = w + 2;
    let ph = h + 2;
    let n = pw * ph;
    let elen = edges.len();
    let ghost target = padded_edge_grid(width as int, height as int, edges@, threshold);
    let mut data: Vec<bool> = Vec::new();
    let mut i: usize = 0;
    while i < n
        invariant
            w == width,
            h == height,
            pw == w + 2,
            ph == h + 2,
            n == pw * ph,
            edges@.len() == w * h,
            elen == edges@.len(),
            target == padded_edge_grid(width as int, height as int, edges@, threshold),
            i <= n,
            data@ == target.subrange(0, i as int),
        decreases n - i,
    {
        proof {
            lemma_col_row(pw as int, ph as int, i as int);
        }
        let x = i % pw;
        let y = i / pw;
        let mut v = false;
        if 1 <= x && x <= w && 1 <= y && y <= h {
            proof {
                lemma_index_in_bounds(x - 1, y - 1, w as int, h as int);
            }
            v = edges[(y - 1) * w + (x - 1)] > threshold;
        }
        data.push(v);
        i = i + 1;
        assert(data@ =~= target.subrange(0, i as int));
    }
    assert(data@ =~= target);
    FlatGrid { data, width: pw, height: ph }
}

/// The skeleton polylines of an edge image: binarised at `threshold`,
/// thinned, and traced.
pub fn skeleton_from_edges(width: u32, height: u32, edges: &Vec<u8>, threshold: u8) -> (r: Vec<Vec<(i64, i64)>>)
    requires
        edges@.len() == width * height,
        (width + 2) * (height + 2) <= usize::MAX,
    ensures
        point_paths(r@) == raster_skeleton(width as int, height as int, edges@, threshold),
{
    let mut grid = binarize_padded(width, height, edges, threshold);
    zhang_suen_thinning(&mut grid);
    extract_paths(&grid)
}

/// The mean colour of the in-image points of `pts`.
pub fn path_color(rgb: &Vec<u8>, width: u32, height: u32, pts: &Vec<(i64, i64)>) -> (r: Option<(u8, u8, u8)>)
    requires
        rgb@.len() == 3 * width * height,
    ensures
        r == mean_color(rgb@, width as int, height as int, pts@),
{
    let ghost w = width as int;
    let ghost h = height as int;
    let mut r_sum: u128 = 0;
    let mut g_sum: u128 = 0;
    let mut b_sum: u128 = 0;
    let mut count: u128 = 0;
    let n = pts.len();
    let rgb_len = rgb.len();
    let mut q: usize = 0;
    while q < n
        invariant
            n == pts@.len(),
            q <= n,
            rgb@.len() == 3 * width * height,
            rgb_len == rgb@.len(),
            w == width,
            h == height,
            r_sum == channel_total(rgb@, w, h, pts@.subrange(0, q as int), 0),
            g_sum == channel_total(rgb@, w, h, pts@.subrange(0, q as int), 1),
            b_sum == channel_total(rgb@, w, h, pts@.subrange(0, q as int), 2),
            count == inside_count(w, h, pts@.subrange(0, q as int)),
            count <= q,
            r_sum <= 255 * q,
            g_sum <= 255 * q,
            b_sum <= 255 * q,
        decreases n - q,
    {
        let ghost pre = pts@.subrange(0, q as int);
        let p = pts[q];
        let ghost post = pts@.subrange(0, q + 1);
        proof {
            assert(post.drop_last() =~= pre);
            assert(post.last() == p);
            lemma_channel_total_bound(rgb@, w, h, pre, 0);
        }
        if p.0 >= 0 && p.1 >= 0 && (p.0 as u64) < (width as u64) && (p.1 as u64) < (height as u64) {
            let x = p.0 as usize;
            let y = p.1 as usize;
            proof {
                lemma_index_in_bounds(x as int, y as int, w, h);
                assert(3 * (y * w + x) + 2 < 3 * (w * h)) by (nonlinear_arith)
                    requires y * w + x < w * h;
                assert(3 * (w * h) == 3 * width * height) by (nonlinear_arith)
                    requires w == width, h == height;
            }
            let base = 3 * (y * (width as usize) + x);
            r_sum = r_sum + rgb[base] as u128;
            g_sum = g_sum + rgb[base + 1] as u128;
            b_sum = b_sum + rgb[base + 2] as u128;
            count = count + 1;
        }
        q = q + 1;
    }
    proof {
        assert(pts@.subrange(0, n as int) =~= pts@);
    }
    if count == 0 {
        None
    } else {
        proof {
            let all = pts@;
            lemma_channel_total_bound(rgb@, w, h, all, 0);
            lemma_channel_total_bound(rgb@, w, h, all, 1);
            lemma_channel_total_bound(rgb@, w, h, all, 2);
            let c = count as int;
            assert(r_sum as int / c <= 255) by (nonlinear_arith)
                requires r_sum <= 255 * c, c > 0;
            assert(g_sum as int / c <= 255) by (nonlinear_arith)
                requires g_sum <= 255 * c, c > 0;
            assert(b_sum as int / c <= 255) by (nonlinear_arith)
                requires b_sum <= 255 * c, c > 0;
        }
        Some(((r_sum / count) as u8, (g_sum / count) as u8, (b_sum / count) as u8))
    }
}

/// The histogram of a byte image: entry `t` counts the pixels equal to `t`.
pub fn histogram(pixels: &Vec<u8>) -> (hist: Vec<usize>)
    ensures
        hist@.len() == 256,
        forall|t: int| 0 <= t < 256 ==> hist@[t] == count_of(pixels@, t),
{
    let mut hist: Vec<usize> = Vec::new();
    let mut t: usize = 0;
    while t < 256
        invariant
            t <= 256,
            hist@.len() == t,
            forall|u: int| 0 <= u < t ==> hist@[u] == 0,
        decreases 256 - t,
    {
        hist.push(0);
        t = t + 1;
    }
    let n = pixels.len();
    let mut i: usize = 0;
    while i < n
        invariant
            n == pixels@.len(),
            i <= n,
            hist@.len() == 256,
            forall|u: int| 0 <= u < 256 ==> hist@[u] == count_of(#[trigger] pixels@.subrange(0, i as int), u),
        decreases n - i,
    {
        let ghost pre = pixels@.subrange(0, i as int);
        let ghost post = pixels@.subrange(0, i + 1);
        let e = pixels[i] as usize;
        proof {
            assert(post.drop_last() =~= pre);
            lemma_count_of_bound(pre, e as int);
        }
        let c = hist[e];
        hist.set(e, c + 1);
        i = i + 1;
        assert forall|u: int| 0 <= u < 256 implies hist@[u] == count_of(pixels@.subrange(0, i as int), u) by {
            assert(pixels@.subrange(0, i as int) == post);
        }
    }
    assert(pixels@.subrange(0, n as int) =~= pixels@);
    hist
}

/// Whether an edge image meets `raster_fits`.
pub fn raster_in_range(width: u32, height: u32, edges: &Vec<u8>) -> (b: bool)
    ensures
        b == raster_fits(width, height, edges@),
{
    assert((width as u64) * (height as u64) <= 0xFFFF_FFFF_FFFF_FFFFu64) by (nonlinear_arith);
    assert((width as u128 + 2) * (height as u128 + 2) <= 0x1_0000_0002u128 * 0x1_0000_0002u128) by (nonlinear_arith);
    let pixels = (width as u64) * (height as u64);
    if pixels > 0xFFFF_FFFFu64 {
        return false;
    }
    let padded = (width as u128 + 2) * (height as u128 + 2);
    if padded > usize::MAX as u128 {
        return false;
    }
    let hist = histogram(edges);
    let mut t: usize = 0;
    while t < 256
        invariant
            t <= 256,
            hist@.len() == 256,
            forall|u: int| 0 <= u < 256 ==> hist@[u] == count_of(edges@, u),
            forall|u: int| 0 <= u < t ==> u * #[trigger] count_of(edges@, u) <= u32::MAX,
        decreases 256 - t,
    {
        let c = hist[t];
        proof {
            assert((t as u128) * (c as u128) <= 255 * 0xFFFF_FFFF_FFFF_FFFFu128) by (nonlinear_arith)
                requires t < 256, c <= 0xFFFF_FFFF_FFFF_FFFFu128;
        }
        if (t as u128) * (c as u128) > 0xFFFF_FFFFu128 {
            assert(!(t * count_of(edges@, t as int) <= u32::MAX));
            return false;
        }
        t = t + 1;
    }
    true
}

/// Edge strengths of the luma image, saturated to a byte.
fn edge_image(img: &DecodedImage) -> (edges: Vec<u8>)
    requires
        img.luma@.len() == img.width * img.height,
    ensures
        edges@ == edge_levels(sobel_gradients_of(img.width, img.height, img.luma@)),
        edges@.len() == img.width * img.height,
{
    let grad = call_sobel_gradients(img.width, img.height, &img.luma);
    clamp_edges(&grad)
}

/// A copy of a list of points.
pub fn copy_points(v: &Vec<(i64, i64)>) -> (r: Vec<(i64, i64)>)
    ensures
        r@ == v@,
{
    let mut r: Vec<(i64, i64)> = Vec::new();
    let n = v.len();
    let mut i: usize = 0;
    while i < n
        invariant
            n == v@.len(),
            i <= n,
            r@ == v@.subrange(0, i as int),
        decreases n - i,
    {
        r.push(v[i]);
        i = i + 1;
        assert(r@ =~= v@.subrange(0, i as int));
    }
    assert(v@.subrange(0, n as int) =~= v@);
    r
}

/// Thresholds an edge image by Otsu's method, thins it to a skeleton,
/// traces the skeleton into polylines and, when `color` is set, gives each
/// the mean colour of its pixels in `rgb`.
pub fn colored_skeleton(width: u32, height: u32, edges: &Vec<u8>, rgb: &Vec<u8>, color: bool) -> (r: Vec<ColoredPath<Vec<(i64, i64)>>>)
    requires
        edges@.len() == width * height,
        rgb@.len() == 3 * width * height,
        raster_fits(width, height, edges@),
    ensures
        colored_skeleton_of(r@, width, height, edges@, rgb@, color),
{
    let threshold = call_otsu_level(width, height, edges);
    let paths = skeleton_from_edges(width, height, edges, threshold);
    let ghost sk = otsu_skeleton(width, height, edges@);
    assert(point_paths(paths@) == sk);
    let mut out: Vec<ColoredPath<Vec<(i64, i64)>>> = Vec::new();
    let n = paths.len();
    let mut i: usize = 0;
    while i < n
        invariant
            n == paths@.len(),
            i <= n,
            sk == otsu_skeleton(width, height, edges@),
            point_paths(paths@) == sk,
            rgb@.len() == 3 * width * height,
            out@.len() == i,
            forall|j: int|
                0 <= j < i ==> {
                    &&& (#[trigger] out@[j]).data@ == sk[j]
                    &&& out@[j].color_rgb == path_rgb(rgb@, width, height, sk[j], color)
                },
        decreases n - i,
    {
        let pts = copy_points(&paths[i]);
        assert(pts@ == sk[i as int]) by {
            assert(point_paths(paths@)[i as int] == paths@[i as int]@);
        }
        let c = if color {
            path_color(rgb, width, height, &pts)
        } else {
            None
        };
        out.push(ColoredPath { color_rgb: c, data: pts });
        i = i + 1;
    }
    out
}

/// Gives each coloured path as an open polyline styled `#rrggbb`.
pub fn styled_polylines(paths: Vec<ColoredPath<Vec<(i64, i64)>>>) -> (r: Vec<StyledPath<Polyline>>)
    ensures
        styled_from(r@, paths@),
{
    let mut out: Vec<StyledPath<Polyline>> = Vec::new();
    let n = paths.len();
    let mut i: usize = 0;
    while i < n
        invariant
            n == paths@.len(),
            i <= n,
            out@.len() == i,
            forall|j: int|
                0 <= j < i ==> {
                    &&& (#[trigger] out@[j]).geometry.points@ == paths@[j].data@
                    &&& !out@[j].geometry.closed
                    &&& opt_text(out@[j].color_style) == opt_hex(paths@[j].color_rgb)
                },
        decreases n - i,
    {
        let p = &paths[i];
        let style = match p.color_rgb {
            Some((r, g, b)) => Some(format_hex_color(r, g, b)),
            None => None,
        };
        let points = copy_points(&p.data);
        out.push(StyledPath { geometry: Polyline { points, closed: false }, color_style: style });
        i = i + 1;
    }
    out
}

/// Decodes raster image bytes and turns the image into skeleton polylines,
/// each styled with its mean colour when `color` is set; also gives the
/// image's width and height.
pub fn decode_raster_memory(bytes: &[u8], color: bool) -> (r: Result<(Vec<StyledPath<Polyline>>, (u32, u32)), String>)
    ensures
        match decoded_image(bytes@) {
            None => r is Err,
            Some((w, h, luma, rgb)) => {
                let edges = edge_levels(sobel_gradients_of(w, h, luma));
                &&& luma.len() == w * h
                &&& rgb.len() == 3 * w * h
                &&& sobel_gradients_of(w, h, luma).len() == w * h
                &&& if raster_fits(w, h, edges) {
                    &&& r is Ok
                    &&& r->Ok_0.1 == (w, h)
                    &&& styled_skeleton_of(r->Ok_0.0@, w, h, edges, rgb, color)
                } else {
                    r matches Err(e) && e@ == too_large_message()
                }
            },
        },
{
    let img = match call_load_from_memory(bytes) {
        Ok(img) => img,
        Err(e) => return Err(e),
    };
    let edges = edge_image(&img);
    if !raster_in_range(img.width, img.height, &edges) {
        return Err(String::from_str("image too large for Otsu thresholding"));
    }
    let colored = colored_skeleton(img.width, img.height, &edges, &img.rgb, color);
    let ghost cv = colored@;
    let styled = styled_polylines(colored);
    assert forall|i: int| 0 <= i < styled@.len() implies ({
        let sk = otsu_skeleton(img.width, img.height, edges@);
        &&& (#[trigger] styled@[i]).geometry.points@ == sk[i]
        &&& !styled@[i].geometry.closed
        &&& opt_text(styled@[i].color_style) == opt_hex(path_rgb(img.rgb@, img.width, img.height, sk[i], color))
    }) by {
        assert(cv[i].data@ == otsu_skeleton(img.width, img.height, edges@)[i]);
    }
    Ok((styled, (img.width, img.height)))
}

/// Decodes raster image bytes and turns the image into skeleton paths, each
/// with its mean colour when `color` is set; also gives the image's width
/// and height.
pub fn process_raster_from_memory(bytes: &[u8], color: bool) -> (r: Result<(Vec<ColoredPath<Vec<(i64, i64)>>>, (u32, u32)), VectomancyError>)
    ensures
        match decoded_image(bytes@) {
            None => r matches Err(VectomancyError::ImageProcessing(_)),
            Some((w, h, luma, rgb)) => {
                let edges = edge_levels(sobel_gradients_of(w, h, luma));
                &&& luma.len() == w * h
                &&& rgb.len() == 3 * w * h
                &&& sobel_gradients_of(w, h, luma).len() == w * h
                &&& if raster_fits(w, h, edges) {
                    &&& r is Ok
                    &&& r->Ok_0.1 == (w, h)
                    &&& colored_skeleton_of(r->Ok_0.0@, w, h, edges, rgb, color)
                } else {
                    r matches Err(VectomancyError::ImageProcessing(e)) && e@ == too_large_message()
                }
            },
        },
{
    let img = match call_load_from_memory(bytes) {
        Ok(img) => img,
        Err(e) => return Err(VectomancyError::ImageProcessing(e)),
    };
    let edges = edge_image(&img);
    if !raster_in_range(img.width, img.height, &edges) {
        return Err(VectomancyError::ImageProcessing(String::from_str("image too large for Otsu thresholding")));
    }
    let colored = colored_skeleton(img.width, img.height, &edges, &img.rgb, color);
    Ok((colored, (img.width, img.height)))
}

} // verus!
