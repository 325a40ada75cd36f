use pngtosvg::opacity::opacity_str;
use pngtosvg::svg::push_decimal;
use pngtosvg::{
    boundary_edges, joined_edges, path_element, segment_regions, svg_header, Color, Edge,
    PixelGrid, Point, Region,
};

const RED: Color = Color { r: 255, g: 0, b: 0, a: 255 };
const BLUE: Color = Color { r: 0, g: 0, b: 255, a: 255 };
const CLEAR: Color = Color { r: 0, g: 0, b: 0, a: 0 };

fn pt(x: u32, y: u32) -> Point {
    Point { x, y }
}

fn edge(a: (u32, u32), b: (u32, u32)) -> Edge {
    Edge { start: pt(a.0, a.1), end: pt(b.0, b.1) }
}

fn grid(width: u32, height: u32, rows: Vec<Color>) -> PixelGrid {
    PixelGrid::new(width, height, rows).unwrap()
}

/// Twice the signed area of a closed contour, positive for a loop that
/// keeps its inside on the left with `y` growing downwards.
fn twice_area(contour: &[Point]) -> i64 {
    let mut sum = 0i64;
    for i in 0..contour.len() {
        let a = contour[i];
        let b = contour[(i + 1) % contour.len()];
        sum += b.x as i64 * a.y as i64 - a.x as i64 * b.y as i64;
    }
    sum
}

/// The unit edges along a closed contour whose every point was kept.
fn unit_edges(contour: &[Point]) -> Vec<Edge> {
    let mut edges = Vec::new();
    for i in 0..contour.len() {
        edges.push(Edge { start: contour[i], end: contour[(i + 1) % contour.len()] });
    }
    edges
}

fn sorted_pixels(region: &Region) -> Vec<(u32, u32)> {
    let mut pixels: Vec<(u32, u32)> = region.pixels.iter().map(|p| (p.x, p.y)).collect();
    pixels.sort();
    pixels
}

#[test]
fn grid_needs_one_colour_per_pixel() {
    assert!(PixelGrid::new(2, 2, vec![RED; 3]).is_none());
    assert!(PixelGrid::new(2, 2, vec![RED; 5]).is_none());
    assert!(PixelGrid::new(0, 7, Vec::new()).is_some());
    let g = PixelGrid::new(3, 2, vec![RED, BLUE, CLEAR, BLUE, CLEAR, RED]).unwrap();
    assert_eq!(g.width(), 3);
    assert_eq!(g.height(), 2);
    assert_eq!(g.len(), 6);
    assert_eq!(g.color(pt(0, 0)), RED);
    assert_eq!(g.color(pt(1, 0)), BLUE);
    assert_eq!(g.color(pt(2, 0)), CLEAR);
    assert_eq!(g.color(pt(0, 1)), BLUE);
    assert_eq!(g.color(pt(2, 1)), RED);
    assert_eq!(g.index_of(pt(2, 1)), 5);
}

#[test]
fn point_steps_stay_on_the_lattice() {
    assert_eq!(pt(3, 4).stepped(0), Some(pt(3, 5)));
    assert_eq!(pt(3, 4).stepped(1), Some(pt(4, 4)));
    assert_eq!(pt(3, 4).stepped(2), Some(pt(3, 3)));
    assert_eq!(pt(3, 4).stepped(3), Some(pt(2, 4)));
    assert_eq!(pt(0, 0).stepped(2), None);
    assert_eq!(pt(0, 0).stepped(3), None);
    assert_eq!(pt(u32::MAX, u32::MAX).stepped(0), None);
    assert_eq!(pt(u32::MAX, u32::MAX).stepped(1), None);
    assert_eq!(pt(3, 4).stepped(9), Some(pt(2, 4)));
}

#[test]
fn edges_compare_by_displacement() {
    assert!(edge((0, 0), (0, 1)).same_delta(edge((5, 5), (5, 6))));
    assert!(!edge((0, 0), (0, 1)).same_delta(edge((5, 6), (5, 5))));
    assert!(!edge((0, 0), (0, 1)).same_delta(edge((0, 0), (1, 0))));
    assert!(!edge((0, 0), (0, 2)).same_delta(edge((0, 0), (0, 1))));
    assert!(edge((u32::MAX, 0), (0, 0)).same_delta(edge((u32::MAX, 9), (0, 9))));
}

#[test]
fn empty_grid_has_no_regions() {
    assert!(segment_regions(&grid(0, 0, Vec::new())).is_empty());
    assert!(segment_regions(&grid(0, 5, Vec::new())).is_empty());
    assert!(segment_regions(&grid(5, 0, Vec::new())).is_empty());
}

#[test]
fn transparent_grid_has_no_regions() {
    let g = grid(3, 2, vec![CLEAR; 6]);
    assert!(segment_regions(&g).is_empty());
    let tinted = Color { r: 9, g: 8, b: 7, a: 0 };
    assert!(segment_regions(&grid(1, 1, vec![tinted])).is_empty());
}

#[test]
fn single_pixel_is_one_region() {
    let regions = segment_regions(&grid(1, 1, vec![RED]));
    assert_eq!(regions.len(), 1);
    assert_eq!(regions[0].color, RED);
    assert_eq!(regions[0].pixels, vec![pt(0, 0)]);
}

#[test]
fn regions_partition_the_opaque_pixels() {
    // R R B .
    // B R B B
    // . R R R
    let rows = vec![
        RED, RED, BLUE, CLEAR, BLUE, RED, BLUE, BLUE, CLEAR, RED, RED, RED,
    ];
    let g = grid(4, 3, rows.clone());
    let regions = segment_regions(&g);
    let mut seen = vec![0u32; 12];
    for region in &regions {
        assert!(!region.pixels.is_empty());
        assert!(region.color.a > 0);
        for p in &region.pixels {
            assert_eq!(g.color(*p), region.color);
            seen[(p.y * 4 + p.x) as usize] += 1;
        }
    }
    for i in 0..12 {
        assert_eq!(seen[i], if rows[i].a > 0 { 1 } else { 0 });
    }
    assert_eq!(regions.len(), 3);
    assert_eq!(regions[0].color, RED);
    assert_eq!(
        sorted_pixels(&regions[0]),
        vec![(0, 0), (1, 0), (1, 1), (1, 2), (2, 2), (3, 2)]
    );
    assert_eq!(regions[1].color, BLUE);
    assert_eq!(sorted_pixels(&regions[1]), vec![(0, 1)]);
    assert_eq!(regions[2].color, BLUE);
    assert_eq!(sorted_pixels(&regions[2]), vec![(2, 0), (2, 1), (3, 1)]);
}

#[test]
fn fill_reaches_pixels_in_breadth_first_order() {
    // One column-major scan from (0, 0); neighbours are tried right, down,
    // left, up.
    let g = grid(2, 2, vec![RED; 4]);
    let regions = segment_regions(&g);
    assert_eq!(regions.len(), 1);
    assert_eq!(regions[0].pixels, vec![pt(0, 0), pt(1, 0), pt(0, 1), pt(1, 1)]);
}

#[test]
fn regions_come_in_scan_order_and_start_with_their_first_pixel() {
    // . B
    // R B
    // R .
    let g = grid(2, 3, vec![CLEAR, BLUE, RED, BLUE, RED, CLEAR]);
    let regions = segment_regions(&g);
    assert_eq!(regions.len(), 2);
    assert_eq!(regions[0].color, RED);
    assert_eq!(regions[0].pixels, vec![pt(0, 1), pt(0, 2)]);
    assert_eq!(regions[1].color, BLUE);
    assert_eq!(regions[1].pixels, vec![pt(1, 0), pt(1, 1)]);
}

#[test]
fn same_colour_apart_is_two_regions() {
    let g = grid(3, 1, vec![RED, BLUE, RED]);
    let regions = segment_regions(&g);
    assert_eq!(regions.len(), 3);
    assert_eq!(regions[0].pixels, vec![pt(0, 0)]);
    assert_eq!(regions[1].pixels, vec![pt(1, 0)]);
    assert_eq!(regions[2].pixels, vec![pt(2, 0)]);
    assert_eq!(regions[0].color, RED);
    assert_eq!(regions[2].color, RED);
}

#[test]
fn alpha_tells_colours_apart() {
    let faint = Color { r: 255, g: 0, b: 0, a: 1 };
    let regions = segment_regions(&grid(2, 1, vec![RED, faint]));
    assert_eq!(regions.len(), 2);
    assert_eq!(regions[0].color, RED);
    assert_eq!(regions[1].color, faint);
}

#[test]
fn boundary_of_one_pixel_is_its_four_sides() {
    let edges = boundary_edges(&vec![pt(2, 5)]);
    assert_eq!(
        edges,
        vec![
            edge((2, 5), (2, 6)),
            edge((2, 6), (3, 6)),
            edge((3, 6), (3, 5)),
            edge((3, 5), (2, 5)),
        ]
    );
}

#[test]
fn boundary_leaves_out_shared_sides() {
    let edges = boundary_edges(&vec![pt(0, 0), pt(1, 0)]);
    assert_eq!(
        edges,
        vec![
            edge((0, 0), (0, 1)),
            edge((0, 1), (1, 1)),
            edge((1, 0), (0, 0)),
            edge((1, 1), (2, 1)),
            edge((2, 1), (2, 0)),
            edge((2, 0), (1, 0)),
        ]
    );
    assert!(boundary_edges(&Vec::new()).is_empty());
}

#[test]
fn boundary_at_the_grid_origin_and_far_corner() {
    let far = u32::MAX - 1;
    let edges = boundary_edges(&vec![pt(far, far)]);
    assert_eq!(edges.len(), 4);
    assert_eq!(edges[2], edge((u32::MAX, u32::MAX), (u32::MAX, far)));
}

#[test]
fn join_of_no_edges_is_no_contour() {
    assert!(joined_edges(&Vec::new(), false).is_empty());
    assert!(joined_edges(&Vec::new(), true).is_empty());
}

#[test]
fn join_of_a_unit_square() {
    let edges = boundary_edges(&vec![pt(0, 0)]);
    let expected = vec![vec![pt(0, 0), pt(0, 1), pt(1, 1), pt(1, 0)]];
    assert_eq!(joined_edges(&edges, false), expected);
    assert_eq!(joined_edges(&edges, true), expected);
}

#[test]
fn join_collapses_straight_runs() {
    // A bar three pixels wide.
    let edges = boundary_edges(&vec![pt(0, 0), pt(1, 0), pt(2, 0)]);
    assert_eq!(
        joined_edges(&edges, false),
        vec![vec![pt(0, 0), pt(0, 1), pt(3, 1), pt(3, 0)]]
    );
    assert_eq!(
        joined_edges(&edges, true),
        vec![vec![
            pt(0, 0),
            pt(0, 1),
            pt(1, 1),
            pt(2, 1),
            pt(3, 1),
            pt(3, 0),
            pt(2, 0),
            pt(1, 0),
        ]]
    );
}

#[test]
fn join_keeps_the_starting_point_of_a_straight_run() {
    // The first edge of the list seeds the contour, so its start stays even
    // where the contour runs straight through it.
    let edges = vec![
        edge((0, 1), (0, 2)),
        edge((0, 0), (0, 1)),
        edge((0, 2), (1, 2)),
        edge((1, 2), (1, 1)),
        edge((1, 1), (1, 0)),
        edge((1, 0), (0, 0)),
    ];
    assert_eq!(
        joined_edges(&edges, false),
        vec![vec![pt(0, 1), pt(0, 2), pt(1, 2), pt(1, 0), pt(0, 0)]]
    );
}

#[test]
fn join_counts_a_repeated_edge_once() {
    let mut edges = boundary_edges(&vec![pt(0, 0)]);
    edges.push(edge((0, 0), (0, 1)));
    edges.push(edge((1, 1), (1, 0)));
    assert_eq!(
        joined_edges(&edges, false),
        vec![vec![pt(0, 0), pt(0, 1), pt(1, 1), pt(1, 0)]]
    );
}

#[test]
fn join_stops_where_no_edge_leads_on() {
    let edges = vec![edge((0, 0), (0, 1)), edge((0, 1), (0, 2)), edge((5, 5), (6, 5))];
    assert_eq!(
        joined_edges(&edges, false),
        vec![vec![pt(0, 0), pt(0, 2)], vec![pt(5, 5), pt(6, 5)]]
    );
    assert_eq!(
        joined_edges(&edges, true),
        vec![vec![pt(0, 0), pt(0, 1), pt(0, 2)], vec![pt(5, 5), pt(6, 5)]]
    );
}

#[test]
fn join_prefers_down_then_right_then_up_then_left() {
    let edges = vec![
        edge((1, 1), (1, 0)),
        edge((1, 0), (0, 0)),
        edge((1, 0), (1, 1)),
        edge((1, 0), (2, 0)),
    ];
    // From (1, 0) the walk goes down although left and right are open too.
    assert_eq!(
        joined_edges(&edges, true),
        vec![vec![pt(1, 1), pt(1, 0)], vec![pt(1, 0), pt(0, 0)], vec![pt(1, 0), pt(2, 0)]]
    );
}

#[test]
fn join_at_the_edge_of_the_lattice() {
    let m = u32::MAX;
    let edges = vec![edge((m, m - 1), (m, m)), edge((0, 1), (0, 0))];
    assert_eq!(
        joined_edges(&edges, false),
        vec![vec![pt(m, m - 1), pt(m, m)], vec![pt(0, 1), pt(0, 0)]]
    );
}

#[test]
fn diagonal_touch_is_walked_as_one_loop() {
    // Two pixels that touch at the corner (1, 1) only. At that corner two
    // edges lead on; the walk takes the one that goes down.
    let edges = boundary_edges(&vec![pt(0, 0), pt(1, 1)]);
    let contours = joined_edges(&edges, false);
    assert_eq!(
        contours,
        vec![vec![
            pt(0, 0),
            pt(0, 1),
            pt(1, 1),
            pt(1, 2),
            pt(2, 2),
            pt(2, 1),
            pt(1, 1),
            pt(1, 0),
        ]]
    );
    assert_eq!(twice_area(&contours[0]), 4);
}

#[test]
fn contours_enclose_as_much_as_the_region_holds() {
    // A ring of eight pixels round a hole, and an L of four.
    let ring = vec![
        pt(0, 0),
        pt(1, 0),
        pt(2, 0),
        pt(0, 1),
        pt(2, 1),
        pt(0, 2),
        pt(1, 2),
        pt(2, 2),
    ];
    let ell = vec![pt(4, 0), pt(4, 1), pt(4, 2), pt(5, 2)];
    for pixels in [ring, ell] {
        for keep in [false, true] {
            let contours = joined_edges(&boundary_edges(&pixels), keep);
            let total: i64 = contours.iter().map(|c| twice_area(c)).sum();
            assert_eq!(total, 2 * pixels.len() as i64);
        }
    }
}

#[test]
fn ring_has_an_outer_loop_and_a_hole() {
    let ring = vec![
        pt(0, 0),
        pt(1, 0),
        pt(2, 0),
        pt(0, 1),
        pt(2, 1),
        pt(0, 2),
        pt(1, 2),
        pt(2, 2),
    ];
    let contours = joined_edges(&boundary_edges(&ring), false);
    assert_eq!(
        contours,
        vec![
            vec![pt(0, 0), pt(0, 3), pt(3, 3), pt(3, 0)],
            vec![pt(1, 1), pt(2, 1), pt(2, 2), pt(1, 2)],
        ]
    );
    assert_eq!(twice_area(&contours[0]), 18);
    assert_eq!(twice_area(&contours[1]), -2);
}

#[test]
fn every_edge_is_walked_exactly_once() {
    let pixels = vec![
        pt(0, 0),
        pt(1, 0),
        pt(2, 0),
        pt(0, 1),
        pt(2, 1),
        pt(0, 2),
        pt(1, 2),
        pt(2, 2),
        pt(3, 3),
    ];
    let edges = boundary_edges(&pixels);
    let contours = joined_edges(&edges, true);
    let mut walked: Vec<Edge> = Vec::new();
    for contour in &contours {
        walked.extend(unit_edges(contour));
    }
    assert_eq!(walked.len(), edges.len());
    for e in &edges {
        assert_eq!(walked.iter().filter(|w| *w == e).count(), 1);
    }
}

#[test]
fn both_modes_trace_the_same_polygon() {
    let pixels = vec![pt(0, 0), pt(1, 0), pt(2, 0), pt(3, 0), pt(0, 1), pt(0, 2), pt(0, 3)];
    let edges = boundary_edges(&pixels);
    let short = joined_edges(&edges, false);
    let full = joined_edges(&edges, true);
    assert_eq!(short.len(), full.len());
    for (s, f) in short.iter().zip(full.iter()) {
        assert_eq!(twice_area(s), twice_area(f));
        assert_eq!(s[0], f[0]);
        // The short contour is what is left of the full one.
        let mut at = 0;
        for p in f {
            if at < s.len() && s[at] == *p {
                at += 1;
            }
        }
        assert_eq!(at, s.len());
    }
    assert_eq!(
        short,
        vec![vec![pt(0, 0), pt(0, 4), pt(1, 4), pt(1, 1), pt(4, 1), pt(4, 0)]]
    );
    assert_eq!(full[0].len(), 16);
}

#[test]
fn header_carries_the_size() {
    assert_eq!(
        svg_header(640, 480),
        "<?xml version=\"1.0\" encoding=\"UTF-8\" standalone=\"no\"?>\n\
<!DOCTYPE svg PUBLIC \"-//W3C//DTD SVG 1.1//EN\" \n  \
\"http://www.w3.org/Graphics/SVG/1.1/DTD/svg11.dtd\">\n\
<svg width=\"640\" height=\"480\"\n     \
xmlns=\"http://www.w3.org/2000/svg\" version=\"1.1\">\n"
    );
    assert!(svg_header(0, u32::MAX).contains("<svg width=\"0\" height=\"4294967295\"\n"));
}

#[test]
fn numbers_are_written_in_decimal() {
    for n in [0u32, 7, 10, 99, 100, 1234567890, u32::MAX] {
        let mut text = String::from("x");
        push_decimal(&mut text, n);
        assert_eq!(text, format!("x{}", n));
    }
}

#[test]
fn opacity_is_alpha_over_255_in_single_precision() {
    for alpha in 0..=255u8 {
        assert_eq!(opacity_str(alpha), format!("{}", alpha as f32 / 255.0));
    }
    assert_eq!(opacity_str(0), "0");
    assert_eq!(opacity_str(51), "0.2");
    assert_eq!(opacity_str(128), "0.5019608");
    assert_eq!(opacity_str(255), "1");
}

#[test]
fn path_element_of_a_square() {
    let contours = vec![vec![pt(0, 0), pt(0, 1), pt(1, 1), pt(1, 0)]];
    let teal = Color { r: 1, g: 20, b: 200, a: 128 };
    assert_eq!(
        path_element(teal, &contours),
        " <path d=\" M 0,0 L 0,1 L 1,1 L 1,0 Z\" \
style=\"fill:rgb(1,20,200); fill-opacity:0.5019608; stroke:none;\" />"
    );
}

#[test]
fn path_element_holds_every_contour() {
    let contours = vec![
        vec![pt(0, 0), pt(0, 3), pt(3, 3), pt(3, 0)],
        Vec::new(),
        vec![pt(10, 11)],
        vec![pt(1, 1), pt(2, 1), pt(2, 2), pt(1, 2)],
    ];
    assert_eq!(
        path_element(RED, &contours),
        " <path d=\" M 0,0 L 0,3 L 3,3 L 3,0 Z M 10,11 Z M 1,1 L 2,1 L 2,2 L 1,2 Z\" \
style=\"fill:rgb(255,0,0); fill-opacity:1; stroke:none;\" />"
    );
}

#[test]
fn path_element_without_contours_is_empty() {
    assert_eq!(path_element(RED, &Vec::new()), "");
}
