use image::{ImageBuffer, Rgb};
use vectomancy::error::VectomancyError;
use vectomancy::grid::FlatGrid;
use vectomancy::raster::{
    binarize_padded, clamp_edges, colored_skeleton, copy_points, decode_raster_memory, histogram,
    path_color, process_raster_from_memory, raster_in_range, skeleton_from_edges, styled_polylines,
    ColoredPath,
};
use vectomancy::skeleton::{extract_path_indices, extract_paths, skeleton_endpoints, trace_from};
use vectomancy::thinning::zhang_suen_thinning;

fn encode_png(imgbuf: &ImageBuffer<Rgb<u8>, Vec<u8>>) -> Vec<u8> {
    let mut bytes = Vec::new();
    imgbuf
        .write_to(&mut std::io::Cursor::new(&mut bytes), image::ImageFormat::Png)
        .unwrap();
    bytes
}

fn grid_from_rows(rows: &[&str]) -> FlatGrid {
    let height = rows.len();
    let width = rows[0].len();
    let mut data = Vec::new();
    for r in rows {
        for c in r.chars() {
            data.push(c == '#');
        }
    }
    FlatGrid { data, width, height }
}

fn touching(a: (i64, i64), b: (i64, i64)) -> bool {
    (a.0 - b.0).abs() <= 1 && (a.1 - b.1).abs() <= 1 && a != b
}

#[test]
fn test_raster_decoding() {
    let mut imgbuf: ImageBuffer<Rgb<u8>, Vec<u8>> = ImageBuffer::new(20, 20);
    for x in 0..20 {
        imgbuf.put_pixel(x, 10, Rgb([255u8, 255u8, 255u8]));
    }

    let bytes = encode_png(&imgbuf);

    let (polylines, dimensions) = decode_raster_memory(&bytes, false).unwrap();
    assert_eq!(dimensions, (20, 20));
    assert!(!polylines.is_empty());
    assert_eq!(polylines.len(), 2, "expected one skeleton path per Sobel edge");
    for path in &polylines {
        assert!(
            path.geometry.points.len() >= 15,
            "each edge should be traced as one continuous run, not fragmented; got {} points",
            path.geometry.points.len()
        );
    }
}

#[test]
fn test_blank_image_has_no_paths() {
    let imgbuf: ImageBuffer<Rgb<u8>, Vec<u8>> = ImageBuffer::from_pixel(16, 16, Rgb([128, 128, 128]));
    let bytes = encode_png(&imgbuf);

    let (polylines, dimensions) = decode_raster_memory(&bytes, false).unwrap();
    assert_eq!(dimensions, (16, 16));
    assert!(polylines.is_empty());
}

#[test]
fn test_closed_square_loop_is_traced() {
    let mut imgbuf: ImageBuffer<Rgb<u8>, Vec<u8>> = ImageBuffer::new(20, 20);
    for i in 4..16u32 {
        imgbuf.put_pixel(i, 4, Rgb([255, 255, 255]));
        imgbuf.put_pixel(i, 15, Rgb([255, 255, 255]));
        imgbuf.put_pixel(4, i, Rgb([255, 255, 255]));
        imgbuf.put_pixel(15, i, Rgb([255, 255, 255]));
    }

    let bytes = encode_png(&imgbuf);
    let (polylines, dimensions) = decode_raster_memory(&bytes, false).unwrap();
    assert_eq!(dimensions, (20, 20));
    assert!(!polylines.is_empty(), "closed loop must still be traced without any endpoint pixels");
}

#[test]
fn test_color_sampling_produces_hex_style() {
    let mut imgbuf: ImageBuffer<Rgb<u8>, Vec<u8>> = ImageBuffer::new(20, 20);
    for x in 0..20 {
        imgbuf.put_pixel(x, 10, Rgb([200, 30, 30]));
    }
    let bytes = encode_png(&imgbuf);

    let (polylines, _) = decode_raster_memory(&bytes, true).unwrap();
    assert!(!polylines.is_empty());
    assert!(polylines.iter().any(|p| p.color_style.is_some()));
    for path in &polylines {
        if let Some(style) = &path.color_style {
            assert!(style.starts_with('#'));
            assert_eq!(style.len(), 7);
        }
    }
}

#[test]
fn test_tiny_image_does_not_panic() {
    let imgbuf: ImageBuffer<Rgb<u8>, Vec<u8>> = ImageBuffer::from_pixel(1, 1, Rgb([255, 255, 255]));
    let bytes = encode_png(&imgbuf);
    let (polylines, dimensions) = decode_raster_memory(&bytes, false).unwrap();
    assert_eq!(dimensions, (1, 1));
    assert!(polylines.is_empty());

    let imgbuf: ImageBuffer<Rgb<u8>, Vec<u8>> = ImageBuffer::from_pixel(2, 2, Rgb([255, 255, 255]));
    let bytes = encode_png(&imgbuf);
    let (_polylines, dimensions) = decode_raster_memory(&bytes, false).unwrap();
    assert_eq!(dimensions, (2, 2));
}

#[test]
fn undecodable_bytes_are_refused() {
    assert!(decode_raster_memory(&[1, 2, 3, 4], false).is_err());
    match process_raster_from_memory(&[1, 2, 3, 4], false) {
        Err(VectomancyError::ImageProcessing(_)) => {}
        other => panic!("expected an image processing error, got {:?}", other.map(|r| r.1)),
    }
}

#[test]
fn raster_paths_follow_edges_and_touch() {
    let mut imgbuf: ImageBuffer<Rgb<u8>, Vec<u8>> = ImageBuffer::new(24, 18);
    for x in 3..21 {
        imgbuf.put_pixel(x, 9, Rgb([255, 255, 255]));
    }
    for y in 2..16 {
        imgbuf.put_pixel(12, y, Rgb([255, 255, 255]));
    }
    let bytes = encode_png(&imgbuf);
    let (paths, dims) = process_raster_from_memory(&bytes, true).unwrap();
    assert_eq!(dims, (24, 18));
    assert!(!paths.is_empty());
    for p in &paths {
        assert!(p.data.len() >= 2);
        for pt in &p.data {
            assert!(pt.0 >= 0 && pt.0 < 24 && pt.1 >= 0 && pt.1 < 18);
        }
        for w in p.data.windows(2) {
            assert!(touching(w[0], w[1]), "{:?} and {:?} do not touch", w[0], w[1]);
        }
        assert!(p.color_rgb.is_some());
    }
}

#[test]
fn decode_and_process_agree() {
    let mut imgbuf: ImageBuffer<Rgb<u8>, Vec<u8>> = ImageBuffer::new(20, 20);
    for x in 0..20 {
        imgbuf.put_pixel(x, 10, Rgb([200, 30, 30]));
    }
    let bytes = encode_png(&imgbuf);
    let (styled, d1) = decode_raster_memory(&bytes, true).unwrap();
    let (colored, d2) = process_raster_from_memory(&bytes, true).unwrap();
    assert_eq!(d1, d2);
    assert_eq!(styled.len(), colored.len());
    for (s, c) in styled.iter().zip(colored.iter()) {
        assert_eq!(s.geometry.points, c.data);
        assert!(!s.geometry.closed);
        let (r, g, b) = c.color_rgb.unwrap();
        assert_eq!(s.color_style.clone().unwrap(), format!("#{:02x}{:02x}{:02x}", r, g, b));
    }
    let (plain, _) = process_raster_from_memory(&bytes, false).unwrap();
    assert!(plain.iter().all(|p| p.color_rgb.is_none()));
}

#[test]
fn clamp_edges_saturates_at_255() {
    assert_eq!(clamp_edges(&vec![0, 17, 255, 256, 1000, 65535]), vec![0, 17, 255, 255, 255, 255]);
}

#[test]
fn histogram_counts_each_level() {
    let h = histogram(&vec![0, 3, 3, 255, 3]);
    assert_eq!(h.len(), 256);
    assert_eq!(h[0], 1);
    assert_eq!(h[3], 3);
    assert_eq!(h[255], 1);
    assert_eq!(h[1], 0);
}

#[test]
fn raster_in_range_checks_otsu_products() {
    assert!(raster_in_range(2, 2, &vec![0, 255, 10, 10]));
    assert!(raster_in_range(0, 0, &vec![]));
}

#[test]
fn binarize_pads_and_thresholds() {
    let g = binarize_padded(2, 2, &vec![10, 50, 51, 0], 50);
    assert_eq!(g.width, 4);
    assert_eq!(g.height, 4);
    let expect = vec![
        false, false, false, false,
        false, false, false, false,
        false, true, false, false,
        false, false, false, false,
    ];
    assert_eq!(g.data, expect);
}

#[test]
fn path_color_averages_in_image_points() {
    // 2x1 image: (10, 20, 30) then (30, 40, 50)
    let rgb = vec![10, 20, 30, 30, 40, 50];
    assert_eq!(path_color(&rgb, 2, 1, &vec![(0, 0), (1, 0)]), Some((20, 30, 40)));
    assert_eq!(path_color(&rgb, 2, 1, &vec![(0, 0), (5, 5), (-1, 0)]), Some((10, 20, 30)));
    assert_eq!(path_color(&rgb, 2, 1, &vec![(7, 0)]), None);
    // averages are rounded down
    let rgb2 = vec![0, 0, 0, 1, 1, 1];
    assert_eq!(path_color(&rgb2, 2, 1, &vec![(0, 0), (1, 0)]), Some((0, 0, 0)));
}

#[test]
fn thinning_keeps_a_one_pixel_line() {
    let mut g = grid_from_rows(&[
        ".......",
        ".#####.",
        ".......",
    ]);
    let before = g.data.clone();
    zhang_suen_thinning(&mut g);
    assert_eq!(g.data, before);
}

#[test]
fn thinning_thins_a_thick_bar() {
    let mut g = grid_from_rows(&[
        "..........",
        ".########.",
        ".########.",
        ".########.",
        "..........",
    ]);
    let before = g.data.clone();
    zhang_suen_thinning(&mut g);
    let count_before = before.iter().filter(|b| **b).count();
    let count_after = g.data.iter().filter(|b| **b).count();
    assert!(count_after < count_before);
    assert!(count_after > 0);
    for (a, b) in g.data.iter().zip(before.iter()) {
        assert!(!*a || *b, "thinning only clears cells");
    }
    let again = g.data.clone();
    zhang_suen_thinning(&mut g);
    assert_eq!(g.data, again, "a thinned grid is stable");
}

#[test]
fn endpoints_are_tips_of_strokes() {
    let g = grid_from_rows(&[
        ".......",
        ".#####.",
        ".......",
    ]);
    assert_eq!(skeleton_endpoints(&g), vec![8, 12]);
}

#[test]
fn trace_walks_a_stroke_end_to_end() {
    let g = grid_from_rows(&[
        ".......",
        ".#####.",
        ".......",
    ]);
    let mut visited = vec![false; g.data.len()];
    let path = trace_from(&g, &mut visited, 8);
    assert_eq!(path, vec![8, 9, 10, 11, 12]);
    assert!(visited[8] && visited[12]);
}

#[test]
fn traces_of_a_line_and_a_loop() {
    let g = grid_from_rows(&[
        ".........",
        ".###.....",
        ".....###.",
        ".....#.#.",
        ".....###.",
        ".........",
    ]);
    let idx = extract_path_indices(&g);
    assert_eq!(idx.len(), 3);
    assert_eq!(idx[0], vec![10, 11, 12]);
    assert_eq!(idx[1], vec![23, 24, 25, 34, 42, 32, 41, 42]);
    assert_eq!(idx[2], vec![43, 34]);
    let pts = extract_paths(&g);
    assert_eq!(pts[0], vec![(0, 0), (1, 0), (2, 0)]);
    for p in &pts {
        assert!(p.len() >= 2);
        for w in p.windows(2) {
            assert!(touching(w[0], w[1]));
        }
    }
}

fn bodies_are_disjoint(paths: &[Vec<usize>]) -> bool {
    let mut seen = std::collections::HashSet::new();
    paths.iter().all(|p| p[..p.len() - 1].iter().all(|i| seen.insert(*i)))
}

#[test]
fn no_pixel_is_traced_twice_but_a_closing_point() {
    let g = grid_from_rows(&[
        ".........",
        ".###.....",
        ".....###.",
        ".....#.#.",
        ".....###.",
        ".........",
    ]);
    let idx = extract_path_indices(&g);
    assert!(bodies_are_disjoint(&idx));
    // whole paths do repeat: the loop closes onto its own cell 42, and the
    // last trace closes onto cell 34 of the loop.
    assert_eq!(idx[1].iter().filter(|i| **i == 42).count(), 2);
    assert!(idx[1].contains(&34) && idx[2].contains(&34));
    let g = grid_from_rows(&[
        "..........",
        ".###..#...",
        "...#.#.#..",
        "...#..#...",
        ".#.......#",
        "..........",
    ]);
    assert!(bodies_are_disjoint(&extract_path_indices(&g)));
}

#[test]
fn isolated_pixels_give_no_path() {
    let g = grid_from_rows(&[
        ".....",
        ".#...",
        "...#.",
        ".....",
    ]);
    assert!(extract_paths(&g).is_empty());
}

#[test]
fn small_grids_have_no_paths() {
    let g = FlatGrid { data: vec![true, true, true, true], width: 2, height: 2 };
    assert!(extract_paths(&g).is_empty());
}

#[test]
fn skeleton_from_edges_traces_binarised_edges() {
    // 3x1 edge image: all strong
    let paths = skeleton_from_edges(3, 1, &vec![200, 200, 200], 100);
    assert_eq!(paths, vec![vec![(0, 0), (1, 0), (2, 0)]]);
}

#[test]
fn colored_skeleton_and_styles() {
    let edges = vec![200, 200, 200];
    let rgb = vec![255, 0, 0, 0, 255, 0, 0, 0, 255];
    let colored = colored_skeleton(3, 1, &edges, &rgb, true);
    assert_eq!(colored.len(), 1);
    assert_eq!(colored[0].data, vec![(0, 0), (1, 0), (2, 0)]);
    // mean of red, green and blue
    assert_eq!(colored[0].color_rgb, Some((85, 85, 85)));
    let styled = styled_polylines(colored);
    assert_eq!(styled[0].color_style, Some("#555555".to_string()));
    let uncolored = styled_polylines(vec![ColoredPath { color_rgb: None, data: vec![(1, 2)] }]);
    assert_eq!(uncolored[0].color_style, None);
    assert_eq!(copy_points(&vec![(1, 2), (3, 4)]), vec![(1, 2), (3, 4)]);
}

#[test]
fn every_connected_pixel_is_traced() {
    let g = grid_from_rows(&[
        "..........",
        ".###..#...",
        "...#.#.#..",
        "...#..#...",
        ".#.......#",
        "..........",
    ]);
    let paths = extract_path_indices(&g);
    let w = g.width;
    for y in 1..g.height - 1 {
        for x in 1..w - 1 {
            let i = y * w + x;
            if !g.data[i] {
                continue;
            }
            let mut has_neighbour = false;
            for dy in 0..3 {
                for dx in 0..3 {
                    if (dx, dy) != (1, 1) && g.data[(y + dy - 1) * w + (x + dx - 1)] {
                        has_neighbour = true;
                    }
                }
            }
            let traced = paths.iter().any(|p| p.contains(&i));
            assert_eq!(traced, has_neighbour, "cell ({}, {})", x, y);
        }
    }
}

#[test]
fn thinning_keeps_the_border() {
    let mut g = grid_from_rows(&[
        "######",
        "######",
        "######",
        "######",
    ]);
    zhang_suen_thinning(&mut g);
    for x in 0..6 {
        assert!(g.data[x] && g.data[3 * 6 + x]);
    }
    for y in 0..4 {
        assert!(g.data[y * 6] && g.data[y * 6 + 5]);
    }
}

#[test]
fn a_path_over_one_colour_gets_that_colour() {
    let rgb = vec![12, 34, 56, 12, 34, 56, 12, 34, 56, 9, 9, 9];
    assert_eq!(path_color(&rgb, 4, 1, &vec![(0, 0), (1, 0), (2, 0), (-3, 0)]), Some((12, 34, 56)));
}
