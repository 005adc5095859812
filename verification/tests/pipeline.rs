use img2stl::components::constants::DEFAULT_THRESHOLD_VALUE;
use img2stl::components::utils::SplitColor;
use img2stl::edge::{is_hole, Edge};
use img2stl::edge_collection::Edges;
use img2stl::raster::{GrayImage, Luma, Rgba, RgbaImage};
use img2stl::ribbon::edge_to_ribbon;
use img2stl::tree::sort_edges;
use img2stl::triangle::{extrude, flip_triangles, image_to_stl, to_3d};
use img2stl::util::testing::closed_edge;
use img2stl::vert::Vert;
use img2stl::{
    edge_img, get_cell_case, gray_threshold, greyscale_img, into_luma8, pixel_luminance,
    ret_thresholded_img, rgb_to_greyscale, rgb_to_threshold, threshold_grey_image, threshold_img,
    threshold_img_buffer, PipelineError,
};

const WHITE: Rgba = Rgba { r: 255, g: 255, b: 255, a: 255 };
const BLACK: Rgba = Rgba { r: 0, g: 0, b: 0, a: 255 };

fn picture(width: u32, height: u32, dark: &[(u32, u32)]) -> RgbaImage {
    let mut pixels = vec![WHITE; (width * height) as usize];
    for &(x, y) in dark {
        pixels[(y * width + x) as usize] = BLACK;
    }
    RgbaImage::new(width, height, pixels).unwrap()
}

fn trace(width: u32, height: u32, dark: &[(u32, u32)]) -> Edges {
    let mut img = picture(width, height, dark);
    threshold_img(&mut img, DEFAULT_THRESHOLD_VALUE);
    edge_img(&img).unwrap()
}

fn points(e: &Edge) -> Vec<(i64, i64)> {
    e.verts.iter().map(|v| (v.x, v.y)).collect()
}

fn all_but(width: u32, height: u32, light: &[(u32, u32)]) -> Vec<(u32, u32)> {
    let mut dark = vec![];
    for x in 0..width {
        for y in 0..height {
            if !light.contains(&(x, y)) {
                dark.push((x, y));
            }
        }
    }
    dark
}

#[test]
fn test_edge_to_ribbon() {
    let edge = closed_edge(10, 0, 0, false);
    let height = 6;
    let tris = edge_to_ribbon(&edge, height);
    assert_eq!(tris.len() / 9, 8)
}

#[test]
fn ribbon_faces_away_from_the_solid() {
    let a = Vert::new(0, 0);
    let outer = Edge::from(vec![a, Vert::new(4, 0), Vert::new(0, 4), a]);
    let tris = edge_to_ribbon(&outer, 7);
    assert_eq!(tris.len(), 3 * 18);
    assert_eq!(
        &tris[..18],
        &[0, 0, 0, 0, 0, 7, 4, 0, 0, 0, 0, 7, 4, 0, 7, 4, 0, 0]
    );
    let hole = Edge::from(vec![a, Vert::new(0, 4), Vert::new(4, 0), a]);
    let tris = edge_to_ribbon(&hole, 7);
    assert_eq!(
        &tris[..18],
        &[0, 0, 0, 0, 4, 0, 0, 0, 7, 0, 0, 7, 0, 4, 0, 0, 4, 7]
    );
}

#[test]
fn to_3d_and_flip() {
    let flat = vec![0, 0, 4, 0, 0, 4];
    let top = to_3d(&flat, 9);
    assert_eq!(top, vec![0, 0, 9, 4, 0, 9, 0, 4, 9]);
    assert_eq!(flip_triangles(&top, 0), vec![0, 0, 0, 0, 4, 0, 4, 0, 0]);
    assert_eq!(to_3d(&vec![], 1), Vec::<i64>::new());
    assert_eq!(flip_triangles(&[], 1), Vec::<i64>::new());
}

#[test]
fn luminance_is_weighted_and_rounded_down() {
    assert_eq!(pixel_luminance(Rgba { r: 255, g: 255, b: 255, a: 0 }), 255);
    assert_eq!(pixel_luminance(Rgba { r: 0, g: 0, b: 0, a: 255 }), 0);
    assert_eq!(pixel_luminance(Rgba { r: 255, g: 0, b: 0, a: 255 }), 54);
    assert_eq!(pixel_luminance(Rgba { r: 0, g: 255, b: 0, a: 255 }), 182);
    assert_eq!(pixel_luminance(Rgba { r: 0, g: 0, b: 255, a: 255 }), 18);
    assert_eq!(pixel_luminance(Rgba { r: 10, g: 20, b: 30, a: 7 }), 18);
    assert_eq!(
        rgb_to_greyscale(Rgba { r: 10, g: 20, b: 30, a: 7 }),
        Rgba { r: 18, g: 18, b: 18, a: 255 }
    );
}

#[test]
fn threshold_is_inclusive() {
    let grey = Rgba { r: 128, g: 128, b: 128, a: 9 };
    assert_eq!(rgb_to_threshold(grey, 128), Rgba { r: 0, g: 0, b: 0, a: 255 });
    assert_eq!(rgb_to_threshold(grey, 127), Rgba { r: 255, g: 255, b: 255, a: 0 });
    assert_eq!(rgb_to_threshold(WHITE, 255), Rgba { r: 0, g: 0, b: 0, a: 255 });
    assert_eq!(rgb_to_threshold(BLACK, 0), Rgba { r: 0, g: 0, b: 0, a: 255 });
}

#[test]
fn binarizing_twice_is_binarizing_once() {
    let pixels: Vec<Rgba> = (0..=255u32)
        .map(|i| Rgba { r: i as u8, g: (255 - i) as u8, b: ((i * 7) % 256) as u8, a: i as u8 })
        .collect();
    for threshold in [0u8, 1, 54, 127, 128, 200, 254, 255] {
        let mut once = RgbaImage::new(16, 16, pixels.clone()).unwrap();
        threshold_img(&mut once, threshold);
        let mut twice = RgbaImage::new(16, 16, pixels.clone()).unwrap();
        threshold_img(&mut twice, threshold);
        threshold_img(&mut twice, threshold);
        assert_eq!(once, twice);
    }
}

#[test]
fn greyscale_and_grey_threshold() {
    let mut img =
        RgbaImage::new(2, 1, vec![Rgba { r: 255, g: 0, b: 0, a: 0 }, WHITE]).unwrap();
    greyscale_img(&mut img);
    assert_eq!(img.pixels, vec![Rgba { r: 54, g: 54, b: 54, a: 255 }, WHITE]);
    let grey = into_luma8(img);
    assert_eq!(grey.pixels, vec![Luma(54), Luma(255)]);
    let mut p = Luma(54);
    gray_threshold(&mut p, 54);
    assert_eq!(p, Luma(0));
    let mut p = Luma(55);
    gray_threshold(&mut p, 54);
    assert_eq!(p, Luma(255));
    let mut grey = GrayImage::new(3, 1, vec![Luma(10), Luma(128), Luma(129)]).unwrap();
    threshold_grey_image(&mut grey, 128);
    assert_eq!(grey.pixels, vec![Luma(0), Luma(0), Luma(255)]);
}

#[test]
fn split_color_maps_to_black_and_white() {
    let cmap = SplitColor::new(127);
    assert_eq!(cmap.index_of(&Luma(127)), 0);
    assert_eq!(cmap.index_of(&Luma(128)), 1);
    assert_eq!(cmap.lookup(0), Some(Luma(0)));
    assert_eq!(cmap.lookup(1), Some(Luma(255)));
    assert_eq!(cmap.lookup(2), None);
    assert!(cmap.has_lookup());
    let mut c = Luma(200);
    cmap.map_color(&mut c);
    assert_eq!(c, Luma(255));
    let grey = GrayImage::new(2, 2, vec![Luma(0), Luma(127), Luma(128), Luma(255)]).unwrap();
    let out = threshold_img_buffer(grey, cmap);
    assert_eq!(out.pixels, vec![Luma(0), Luma(0), Luma(255), Luma(255)]);
    let img = RgbaImage::new(2, 1, vec![Rgba { r: 0, g: 255, b: 0, a: 0 }, BLACK]).unwrap();
    let out = ret_thresholded_img(img, cmap);
    assert_eq!((out.width(), out.height()), (2, 1));
    assert_eq!(out.pixels, vec![Luma(255), Luma(0)]);
    assert_eq!(out.get_pixel(1, 0), Luma(0));
}

#[test]
fn images_check_their_size() {
    assert!(RgbaImage::new(2, 2, vec![WHITE; 3]).is_none());
    assert!(RgbaImage::new(2, 2, vec![WHITE; 4]).is_some());
    assert!(GrayImage::new(0, 5, vec![]).is_some());
    assert!(GrayImage::new(1, 1, vec![]).is_none());
    let raw = vec![1, 2, 3, 4, 5, 6, 7, 8];
    let mut img = RgbaImage::from_raw(2, 1, &raw).unwrap();
    assert_eq!(img.get_pixel(1, 0), Rgba { r: 5, g: 6, b: 7, a: 8 });
    img.put_pixel(0, 0, BLACK);
    assert_eq!((img.width(), img.height()), (2, 1));
    assert_eq!(img.into_raw(), vec![0, 0, 0, 255, 5, 6, 7, 8]);
    assert!(RgbaImage::from_raw(2, 1, &vec![0; 7]).is_none());
}

#[test]
fn cell_case_reads_four_corners() {
    let img = picture(3, 2, &[(1, 0), (2, 1)]);
    assert_eq!(get_cell_case(&img, 0, 0), Ok((false, true, false, false)));
    assert_eq!(get_cell_case(&img, 1, 0), Ok((true, false, true, false)));
    assert_eq!(get_cell_case(&img, 2, 0), Err(PipelineError::DimensionError));
    assert_eq!(get_cell_case(&img, 0, 1), Err(PipelineError::DimensionError));
}

#[test]
fn too_small_an_image_is_refused() {
    assert_eq!(edge_img(&picture(1, 1, &[(0, 0)])).err(), Some(PipelineError::DimensionError));
    assert_eq!(edge_img(&picture(5, 1, &[])).err(), Some(PipelineError::DimensionError));
    assert_eq!(edge_img(&picture(0, 0, &[])).err(), Some(PipelineError::DimensionError));
    assert_eq!(image_to_stl(picture(1, 7, &[]), 128, 1), Err(PipelineError::DimensionError));
}

#[test]
fn background_gives_no_ring_and_no_triangle() {
    let edges = trace(6, 4, &[]);
    assert_eq!(edges.closed_edges.len(), 0);
    assert_eq!(edges.edges.len(), 0);
    assert_eq!(image_to_stl(picture(6, 4, &[]), 128, 3), Ok(vec![]));
    // nothing is at most as bright as a threshold below every pixel
    let grey = RgbaImage::new(2, 2, vec![Rgba { r: 9, g: 9, b: 9, a: 255 }; 4]).unwrap();
    assert_eq!(image_to_stl(grey, 8, 3), Ok(vec![]));
}

#[test]
fn foreground_all_over_gives_the_border_as_one_outer_ring() {
    for (w, h) in [(2u32, 2u32), (4, 3), (3, 7), (8, 8)] {
        let edges = trace(w, h, &all_but(w, h, &[]));
        assert_eq!(edges.edges.len(), 0);
        assert_eq!(edges.closed_edges.len(), 1);
        let ring = &edges.closed_edges[0];
        assert!(!is_hole(ring));
        let (xm, ym) = (2 * (w as i64 - 1), 2 * (h as i64 - 1));
        for (x, y) in points(ring) {
            assert!(x == 0 || x == xm || y == 0 || y == ym);
        }
        for corner in [(0, 0), (xm, 0), (xm, ym), (0, ym)] {
            assert!(points(ring).contains(&corner));
        }
        assert_eq!(sort_edges(edges.closed_edges).len(), 1);
    }
}

#[test]
fn border_ring_starts_before_the_lower_right_corner() {
    let edges = trace(4, 3, &all_but(4, 3, &[]));
    assert_eq!(
        points(&edges.closed_edges[0]),
        vec![(5, 0), (6, 0), (6, 4), (0, 4), (0, 0), (5, 0)]
    );
    let edges = trace(5, 2, &all_but(5, 2, &[]));
    assert_eq!(
        points(&edges.closed_edges[0]),
        vec![(7, 0), (8, 0), (8, 2), (0, 2), (0, 0), (7, 0)]
    );
    // two pixels wide, it starts above the lower left corner
    let edges = trace(2, 5, &all_but(2, 5, &[]));
    assert_eq!(
        points(&edges.closed_edges[0]),
        vec![(0, 1), (0, 0), (2, 0), (2, 8), (0, 8), (0, 1)]
    );
    let edges = trace(2, 2, &all_but(2, 2, &[]));
    assert_eq!(
        points(&edges.closed_edges[0]),
        vec![(0, 1), (0, 0), (2, 0), (2, 2), (0, 2), (0, 1)]
    );
}

#[test]
fn a_dark_corner_gives_a_ring_of_three_segments() {
    // two by two pixels, dark in the upper left corner: the outline cuts
    // the corner off and runs back along the border
    let edges = trace(2, 2, &[(0, 0)]);
    assert_eq!(edges.edges.len(), 0);
    assert_eq!(edges.closed_edges.len(), 1);
    let ring = &edges.closed_edges[0];
    assert_eq!(ring.len(), 4);
    assert_eq!(ring.front(), ring.back());
    assert!(!is_hole(ring));
    for corner in [(0, 2), (1, 2), (0, 1)] {
        assert!(points(ring).contains(&corner));
    }
    let tris = image_to_stl(picture(2, 2, &[(0, 0)]), 128, 1).unwrap();
    assert_eq!(tris.len(), 9 * (1 + 1 + 2 * 3));
}

#[test]
fn single_pixel_ring_is_the_diamond() {
    let edges = trace(5, 4, &[(3, 2)]);
    // the centre of the pixel is (6, 2); the ring starts on its right
    assert_eq!(
        points(&edges.closed_edges[0]),
        vec![(7, 2), (6, 3), (5, 2), (6, 1), (7, 2)]
    );
}

#[test]
fn single_pixel_gives_one_ring_of_four_segments() {
    for (w, h, x, y) in [(3u32, 3u32, 1u32, 1u32), (5, 4, 3, 2), (9, 9, 1, 7)] {
        let edges = trace(w, h, &[(x, y)]);
        assert_eq!(edges.edges.len(), 0);
        assert_eq!(edges.closed_edges.len(), 1);
        let ring = &edges.closed_edges[0];
        assert_eq!(ring.len(), 5);
        assert_eq!(ring.front(), ring.back());
        assert!(!is_hole(ring));
        let (cx, cy) = (2 * x as i64, 2 * (h as i64 - 1 - y as i64));
        for corner in [(cx, cy + 1), (cx - 1, cy), (cx, cy - 1), (cx + 1, cy)] {
            assert!(points(ring).contains(&corner));
        }
    }
}

#[test]
fn centre_pixel_gives_twelve_triangles() {
    let tris = image_to_stl(picture(3, 3, &[(1, 1)]), 128, 2).unwrap();
    assert_eq!(tris.len(), 9 * 12);
    // eight triangles of wall, then two of lid at the height, then two at zero
    for t in tris[9 * 8..9 * 10].chunks(3) {
        assert_eq!(t[2], 2);
    }
    for t in tris[9 * 10..].chunks(3) {
        assert_eq!(t[2], 0);
    }
    for t in tris.chunks(3) {
        assert!((1..=3).contains(&t[0]) && (1..=3).contains(&t[1]));
    }
}

#[test]
fn traced_rings_remember_their_orientation() {
    let dark = all_but(5, 5, &[(2, 2)]);
    let edges = trace(5, 5, &dark);
    assert_eq!(edges.closed_edges.len(), 2);
    let mut holes = 0;
    for e in edges.closed_edges.iter() {
        assert!(e._is_hole.is_some());
        assert_eq!(e._is_hole, Some(is_hole(e)));
        if e._is_hole == Some(true) {
            holes += 1;
        }
    }
    assert_eq!(holes, 1);
}

fn seen_from_above(t: &[i64]) -> i64 {
    (t[3] - t[0]) * (t[7] - t[1]) - (t[4] - t[1]) * (t[6] - t[0])
}

#[test]
fn lids_go_round_to_the_left_above_and_to_the_right_below() {
    // a ring with a hole and an island in the hole
    let mut dark = all_but(7, 7, &[(2, 2), (3, 2), (4, 2), (2, 3), (4, 3), (2, 4), (3, 4), (4, 4)]);
    dark.retain(|p| *p != (0, 6));
    let edges = trace(7, 7, &dark);
    let walls: usize = edges.closed_edges.iter().map(|e| 2 * (e.len() - 1)).sum();
    let tris = image_to_stl(picture(7, 7, &dark), 128, 3).unwrap();
    assert_eq!(tris.len() % 9, 0);
    let count = tris.len() / 9;
    let lid = (count - walls) / 2;
    assert!(lid >= 2);
    assert_eq!(count, walls + 2 * lid);
    for (k, t) in tris.chunks(9).enumerate() {
        if k < walls {
            assert!(t[2] != t[5] || t[5] != t[8]);
        } else if k < walls + lid {
            assert_eq!((t[2], t[5], t[8]), (3, 3, 3));
            assert!(seen_from_above(t) > 0);
        } else {
            assert_eq!((t[2], t[5], t[8]), (0, 0, 0));
            assert!(seen_from_above(t) < 0);
            let top = &tris[9 * (k - lid)..9 * (k - lid) + 9];
            assert_eq!(seen_from_above(t), -seen_from_above(top));
        }
    }
}

#[test]
fn centre_pixel_lids_have_the_area_of_the_diamond() {
    let tris = image_to_stl(picture(3, 3, &[(1, 1)]), 128, 2).unwrap();
    let areas: Vec<i64> = tris.chunks(9).skip(8).map(seen_from_above).collect();
    assert_eq!(areas.len(), 4);
    assert!(areas[0] > 0 && areas[1] > 0);
    assert_eq!(areas[0] + areas[1], 4);
    assert_eq!((areas[2], areas[3]), (-areas[0], -areas[1]));
}

#[test]
fn annulus_gives_an_outer_ring_and_a_hole() {
    let dark = all_but(5, 5, &[(2, 2)]);
    let edges = trace(5, 5, &dark);
    assert_eq!(edges.closed_edges.len(), 2);
    let holes: Vec<bool> = edges.closed_edges.iter().map(is_hole).collect();
    assert_eq!(holes.iter().filter(|h| **h).count(), 1);
    let segments: usize = edges.closed_edges.iter().map(|e| e.len() - 1).sum();
    let nodes = sort_edges(edges.closed_edges);
    assert_eq!(nodes.len(), 1);
    assert!(!nodes[0].data.is_hole());
    assert_eq!(nodes[0].children.len(), 1);
    assert!(nodes[0].children[0].data.is_hole());

    let tris = image_to_stl(picture(5, 5, &dark), 128, 1).unwrap();
    assert_eq!(tris.len() % 9, 0);
    let lid = (tris.len() / 9 - 2 * segments) / 2;
    assert_eq!(tris.len() / 9, lid + lid + 2 * segments);
    // twice the area of the lid: the square of 8 by 8 less the diamond round the centre
    let mut area = 0;
    for t in tris[18 * segments..18 * segments + 9 * lid].chunks(9) {
        area += (t[3] - t[0]) * (t[7] - t[1]) - (t[4] - t[1]) * (t[6] - t[0]);
    }
    assert_eq!(area, 2 * (64 - 2));
}

#[test]
fn gradient_gives_one_outer_ring_over_the_dark_half() {
    let (w, h) = (16u32, 4u32);
    let mut pixels = vec![];
    for _y in 0..h {
        for x in 0..w {
            let g = (x * 255 / (w - 1)) as u8;
            pixels.push(Rgba { r: g, g, b: g, a: 255 });
        }
    }
    let mut img = RgbaImage::new(w, h, pixels).unwrap();
    threshold_img(&mut img, 128);
    let edges = edge_img(&img).unwrap();
    assert_eq!(edges.closed_edges.len(), 1);
    assert_eq!(edges.edges.len(), 0);
    let ring = &edges.closed_edges[0];
    assert!(!is_hole(ring));
    let xs: Vec<i64> = points(ring).iter().map(|p| p.0).collect();
    assert_eq!(*xs.iter().min().unwrap(), 0);
    assert_eq!(*xs.iter().max().unwrap(), 15);
}

#[test]
fn checkerboard_gives_a_ring_for_every_dark_pixel() {
    let dark = [(0, 0), (2, 0), (1, 1), (3, 1), (0, 2), (2, 2), (1, 3), (3, 3)];
    let edges = trace(4, 4, &dark);
    assert_eq!(edges.closed_edges.len(), 8);
    assert_eq!(edges.edges.len(), 0);
    for ring in edges.closed_edges.iter() {
        assert_eq!(ring.front(), ring.back());
        assert!(!is_hole(ring));
    }
}

#[test]
fn closed_rings_end_where_they_start() {
    let dark = [(1, 1), (2, 1), (3, 1), (3, 2), (3, 3), (5, 5), (6, 6), (0, 7), (7, 0)];
    let edges = trace(8, 8, &dark);
    assert!(edges.closed_edges.len() >= 3);
    for ring in edges.closed_edges.iter() {
        assert!(ring.len() >= 4);
        assert_eq!(ring.front(), ring.back());
    }
    for ring in edges.edges.iter() {
        assert_ne!(ring.front(), ring.back());
    }
}

#[test]
fn triangle_count_is_lids_and_walls() {
    let dark = [(1, 1), (2, 1), (3, 1), (3, 2), (3, 3), (5, 5), (6, 6), (0, 7), (7, 0)];
    let edges = trace(8, 8, &dark);
    let segments: usize = edges.closed_edges.iter().map(|e| e.len() - 1).sum();
    let tris = extrude(edges.closed_edges, 5).unwrap();
    assert_eq!(tris.len() % 9, 0);
    let count = tris.len() / 9;
    assert_eq!((count - 2 * segments) % 2, 0);
    let lid = (count - 2 * segments) / 2;
    assert!(lid > 0);
    // the lid at the top, then the same turned over at the bottom
    let top = &tris[18 * segments..18 * segments + 9 * lid];
    let bottom = &tris[18 * segments + 9 * lid..];
    assert_eq!(flip_triangles(top, 0), bottom);
    assert_eq!(image_to_stl(picture(8, 8, &dark), 128, 5), Ok(tris.clone()));
}

#[test]
fn a_ring_without_width_cannot_be_extruded() {
    let a = Vert::new(0, 0);
    let upright = Edge::from(vec![a, Vert::new(0, 4), a]);
    assert_eq!(extrude(vec![upright], 1), Err(PipelineError::TriangulationFailed));
    assert_eq!(extrude(vec![], 1), Ok(vec![]));
}
