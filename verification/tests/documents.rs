use image::{Rgba, RgbaImage};
use pngtosvg::{
    grid_to_svg, render_regions, rgba_image_to_svg_contiguous, svg_header, Color, PixelGrid,
    Point, Raster, Region,
};

const RED: Color = Color { r: 255, g: 0, b: 0, a: 255 };
const BLUE: Color = Color { r: 0, g: 0, b: 255, a: 255 };
const CLEAR: Color = Color { r: 0, g: 0, b: 0, a: 0 };

const FOOTER: &str = "</svg>\n";

fn grid(width: u32, height: u32, rows: Vec<Color>) -> PixelGrid {
    PixelGrid::new(width, height, rows).unwrap()
}

fn square_path(x: u32, y: u32, fill: &str, opacity: &str) -> String {
    format!(
        " <path d=\" M {},{} L {},{} L {},{} L {},{} Z\" style=\"fill:rgb({}); fill-opacity:{}; stroke:none;\" />",
        x,
        y,
        x,
        y + 1,
        x + 1,
        y + 1,
        x + 1,
        y,
        fill,
        opacity
    )
}

/// The text between `d="` and the next quote of each path, and the style
/// of each path.
fn paths_of(document: &str) -> Vec<(String, String)> {
    let mut found = Vec::new();
    let mut rest = document;
    while let Some(at) = rest.find(" <path d=\"") {
        rest = &rest[at + 10..];
        let end = rest.find('"').unwrap();
        let data = rest[..end].to_string();
        rest = &rest[end + 9..];
        let close = rest.find('"').unwrap();
        found.push((data, rest[..close].to_string()));
        rest = &rest[close..];
    }
    found
}

#[test]
fn empty_grid_is_an_empty_document() {
    assert_eq!(grid_to_svg(&grid(0, 0, Vec::new())), format!("{}{}", svg_header(0, 0), FOOTER));
    assert_eq!(grid_to_svg(&grid(0, 3, Vec::new())), format!("{}{}", svg_header(0, 3), FOOTER));
    assert_eq!(grid_to_svg(&grid(4, 0, Vec::new())), format!("{}{}", svg_header(4, 0), FOOTER));
}

#[test]
fn transparent_grid_is_an_empty_document() {
    let svg = grid_to_svg(&grid(3, 2, vec![CLEAR; 6]));
    assert_eq!(svg, format!("{}{}", svg_header(3, 2), FOOTER));
    assert!(!svg.contains("<path"));
    let tinted = Color { r: 200, g: 100, b: 50, a: 0 };
    assert_eq!(
        grid_to_svg(&grid(2, 2, vec![tinted, CLEAR, tinted, CLEAR])),
        format!("{}{}", svg_header(2, 2), FOOTER)
    );
}

#[test]
fn single_opaque_pixel_is_a_unit_square() {
    let color = Color { r: 12, g: 34, b: 56, a: 255 };
    assert_eq!(
        grid_to_svg(&grid(1, 1, vec![color])),
        format!("{}{}{}", svg_header(1, 1), square_path(0, 0, "12,34,56", "1"), FOOTER)
    );
}

#[test]
fn single_pixel_in_a_larger_grid() {
    let color = Color { r: 1, g: 2, b: 3, a: 102 };
    let mut rows = vec![CLEAR; 9];
    rows[4] = color;
    assert_eq!(
        grid_to_svg(&grid(3, 3, rows)),
        format!("{}{}{}", svg_header(3, 3), square_path(1, 1, "1,2,3", "0.4"), FOOTER)
    );
}

#[test]
fn opacity_follows_alpha() {
    for alpha in [1u8, 64, 127, 128, 200, 254, 255] {
        let color = Color { r: 0, g: 0, b: 0, a: alpha };
        let svg = grid_to_svg(&grid(1, 1, vec![color]));
        let expected = format!("fill-opacity:{};", alpha as f32 / 255.0);
        assert!(svg.contains(&expected));
    }
}

#[test]
fn checkerboard_is_four_squares() {
    // R B
    // B R
    let svg = grid_to_svg(&grid(2, 2, vec![RED, BLUE, BLUE, RED]));
    let expected = format!(
        "{}{}{}{}{}{}",
        svg_header(2, 2),
        square_path(0, 0, "255,0,0", "1"),
        square_path(0, 1, "0,0,255", "1"),
        square_path(1, 0, "0,0,255", "1"),
        square_path(1, 1, "255,0,0", "1"),
        FOOTER
    );
    assert_eq!(svg, expected);
    assert_eq!(grid_to_svg(&grid(2, 2, vec![RED, BLUE, BLUE, RED])), expected);
}

#[test]
fn one_path_for_each_region_not_each_colour() {
    let svg = grid_to_svg(&grid(3, 1, vec![RED, CLEAR, RED]));
    assert_eq!(
        svg,
        format!(
            "{}{}{}{}",
            svg_header(3, 1),
            square_path(0, 0, "255,0,0", "1"),
            square_path(2, 0, "255,0,0", "1"),
            FOOTER
        )
    );
}

#[test]
fn region_with_a_hole_is_one_path_of_two_loops() {
    let mut rows = vec![RED; 9];
    rows[4] = CLEAR;
    assert_eq!(
        grid_to_svg(&grid(3, 3, rows)),
        format!(
            "{} <path d=\" M 0,0 L 0,3 L 3,3 L 3,0 Z M 1,1 L 2,1 L 2,2 L 1,2 Z\" \
style=\"fill:rgb(255,0,0); fill-opacity:1; stroke:none;\" />{}",
            svg_header(3, 3),
            FOOTER
        )
    );
}

#[test]
fn swapping_two_colours_swaps_the_fills_only() {
    let green = Color { r: 0, g: 128, b: 0, a: 77 };
    let rows = vec![
        RED, RED, green, CLEAR, green, RED, green, green, CLEAR, RED, BLUE, RED,
    ];
    let swapped: Vec<Color> = rows
        .iter()
        .map(|c| if *c == RED { green } else if *c == green { RED } else { *c })
        .collect();
    let before = paths_of(&grid_to_svg(&grid(4, 3, rows)));
    let after = paths_of(&grid_to_svg(&grid(4, 3, swapped)));
    let red_style = "fill:rgb(255,0,0); fill-opacity:1; stroke:none;";
    let green_style = format!("fill:rgb(0,128,0); fill-opacity:{}; stroke:none;", 77f32 / 255.0);
    assert_eq!(before.len(), 5);
    assert_eq!(before.len(), after.len());
    for (b, a) in before.iter().zip(after.iter()) {
        assert_eq!(b.0, a.0);
        if b.1 == red_style {
            assert_eq!(a.1, green_style);
        } else if b.1 == green_style {
            assert_eq!(a.1, red_style);
        } else {
            assert_eq!(a.1, b.1);
        }
    }
}

#[test]
fn regions_render_in_their_order() {
    let regions = vec![
        Region { color: BLUE, pixels: vec![Point { x: 1, y: 0 }] },
        Region { color: RED, pixels: Vec::new() },
        Region { color: RED, pixels: vec![Point { x: 0, y: 0 }] },
    ];
    assert_eq!(
        render_regions(2, 1, &regions),
        format!(
            "{}{}{}{}",
            svg_header(2, 1),
            square_path(1, 0, "0,0,255", "1"),
            square_path(0, 0, "255,0,0", "1"),
            FOOTER
        )
    );
}

#[test]
fn raster_is_read_column_and_row() {
    // Three columns, two rows, every pixel its own colour.
    let mut image = RgbaImage::new(3, 2);
    for y in 0..2u32 {
        for x in 0..3u32 {
            image.put_pixel(x, y, Rgba([10 + x as u8, 20 + y as u8, 30, 255 - x as u8]));
        }
    }
    let raster = Raster { image };
    let grid = raster.to_grid();
    assert_eq!(grid.width(), 3);
    assert_eq!(grid.height(), 2);
    for y in 0..2u32 {
        for x in 0..3u32 {
            assert_eq!(
                grid.color(Point { x, y }),
                Color { r: 10 + x as u8, g: 20 + y as u8, b: 30, a: 255 - x as u8 }
            );
        }
    }
}

#[test]
fn raster_converts_like_its_grid() {
    let mut image = RgbaImage::new(3, 2);
    image.put_pixel(0, 0, Rgba([255, 0, 0, 255]));
    image.put_pixel(1, 0, Rgba([255, 0, 0, 255]));
    image.put_pixel(2, 1, Rgba([0, 0, 255, 51]));
    let svg = rgba_image_to_svg_contiguous(&Raster { image });
    assert_eq!(
        svg,
        format!(
            "{} <path d=\" M 0,0 L 0,1 L 2,1 L 2,0 Z\" \
style=\"fill:rgb(255,0,0); fill-opacity:1; stroke:none;\" />{}{}",
            svg_header(3, 2),
            square_path(2, 1, "0,0,255", "0.2"),
            FOOTER
        )
    );
    let rows = vec![RED, RED, CLEAR, CLEAR, CLEAR, Color { r: 0, g: 0, b: 255, a: 51 }];
    assert_eq!(svg, grid_to_svg(&grid(3, 2, rows)));
}

#[test]
fn empty_raster_is_an_empty_document() {
    let svg = rgba_image_to_svg_contiguous(&Raster { image: RgbaImage::new(0, 0) });
    assert_eq!(svg, format!("{}{}", svg_header(0, 0), FOOTER));
    let blank = rgba_image_to_svg_contiguous(&Raster { image: RgbaImage::new(5, 4) });
    assert_eq!(blank, format!("{}{}", svg_header(5, 4), FOOTER));
}
