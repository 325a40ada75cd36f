//! Writing regions out as an SVG document.
//!
//! The document is a header that carries the size of the picture, one `path`
//! element for each region, and the closing tag. A path holds every contour
//! of its region as a sub-path of its own: `M` to the first point, `L` to
//! each further one, and `Z`.

use crate::geometry::{contours_view, points_view, Color, Point, Pos};
use crate::opacity::{opacity_str, opacity_text};
use vstd::prelude::*;
use vstd::string::*;

verus! {

/// The character of one decimal digit.
pub open spec fn digit(d: int) -> char {
    if d == 0 {
        '0'
    } else if d == 1 {
        '1'
    } else if d == 2 {
        '2'
    } else if d == 3 {
        '3'
    } else if d == 4 {
        '4'
    } else if d == 5 {
        '5'
    } else if d == 6 {
        '6'
    } else if d == 7 {
        '7'
    } else if d == 8 {
        '8'
    } else {
        '9'
    }
}

/// A number in decimal, without sign or leading zeros.
pub open spec fn decimal(n: nat) -> Seq<char>
    decreases n,
{
    if n < 10 {
        seq![digit(n as int)]
    } else {
        decimal(n / 10).push(digit((n % 10) as int))
    }
}

/// The header of a document for a picture `width` wide and `height` high.
pub open spec fn header_text(width: nat, height: nat) -> Seq<char> {
    "<?xml version=\"1.0\" encoding=\"UTF-8\" standalone=\"no\"?>\n<!DOCTYPE svg PUBLIC \"-//W3C//DTD SVG 1.1//EN\" \n  \"http://www.w3.org/Graphics/SVG/1.1/DTD/svg11.dtd\">\n<svg width=\""@
        + decimal(width) + "\" height=\""@ + decimal(height)
        + "\"\n     xmlns=\"http://www.w3.org/2000/svg\" version=\"1.1\">\n"@
}

/// A point as it stands in a path: `x,y`.
pub open spec fn point_text(p: Pos) -> Seq<char> {
    decimal(p.0 as nat) + ","@ + decimal(p.1 as nat)
}

/// The line commands to the points of a contour after its first, up to the
/// `count`-th.
pub open spec fn lines_text(contour: Seq<Pos>, count: int) -> Seq<char>
    decreases count,
{
    if count <= 1 {
        Seq::empty()
    } else {
        lines_text(contour, count - 1) + " L "@ + point_text(contour[count - 1])
    }
}

/// One contour as a closed sub-path; nothing for a contour without points.
pub open spec fn contour_text(contour: Seq<Pos>) -> Seq<char> {
    if contour.len() == 0 {
        Seq::empty()
    } else {
        " M "@ + point_text(contour[0]) + lines_text(contour, contour.len() as int) + " Z"@
    }
}

/// The sub-paths of the first `count` contours.
pub open spec fn contours_text(contours: Seq<Seq<Pos>>, count: int) -> Seq<char>
    decreases count,
{
    if count <= 0 {
        Seq::empty()
    } else {
        contours_text(contours, count - 1) + contour_text(contours[count - 1])
    }
}

/// The end of a path element: its style, which fills with the colour, at
/// the opacity of its alpha, and draws no outline.
pub open spec fn style_text(color: Color) -> Seq<char> {
    "\" style=\"fill:rgb("@ + decimal(color.r as nat) + ","@ + decimal(color.g as nat) + ","@
        + decimal(color.b as nat) + "); fill-opacity:"@ + opacity_text(color.a)
        + "; stroke:none;\" />"@
}

/// The path element of a region with the given colour and contours; nothing
/// for a region without contours.
pub open spec fn shape_text(color: Color, contours: Seq<Seq<Pos>>) -> Seq<char> {
    if contours.len() == 0 {
        Seq::empty()
    } else {
        " <path d=\""@ + contours_text(contours, contours.len() as int) + style_text(color)
    }
}

/// The path elements of the first `count` shapes.
pub open spec fn shapes_text(shapes: Seq<(Color, Seq<Seq<Pos>>)>, count: int) -> Seq<char>
    decreases count,
{
    if count <= 0 {
        Seq::empty()
    } else {
        shapes_text(shapes, count - 1) + shape_text(shapes[count - 1].0, shapes[count - 1].1)
    }
}

/// The whole document: header, shapes, closing tag.
pub open spec fn document_text(width: nat, height: nat, shapes: Seq<(Color, Seq<Seq<Pos>>)>) -> Seq<
    char,
> {
    header_text(width, height) + shapes_text(shapes, shapes.len() as int) + "</svg>\n"@
}

fn digit_str(d: u32) -> (text: &'static str)
    requires
        d < 10,
    ensures
        text@ == seq![digit(d as int)],
{
    proof {
        reveal_strlit("0");
        reveal_strlit("1");
        reveal_strlit("2");
        reveal_strlit("3");
        reveal_strlit("4");
        reveal_strlit("5");
        reveal_strlit("6");
        reveal_strlit("7");
        reveal_strlit("8");
        reveal_strlit("9");
    }
    let text = if d == 0 {
        "0"
    } else if d == 1 {
        "1"
    } else if d == 2 {
        "2"
    } else if d == 3 {
        "3"
    } else if d == 4 {
        "4"
    } else if d == 5 {
        "5"
    } else if d == 6 {
        "6"
    } else if d == 7 {
        "7"
    } else if d == 8 {
        "8"
    } else {
        "9"
    };
    assert(text@ =~= seq![digit(d as int)]);
    text
}

/// Appends a number in decimal.
pub fn push_decimal(out: &mut String, n: u32)
    ensures
        final(out)@ == old(out)@ + decimal(n as nat),
    decreases n,
{
    if n >= 10 {
        push_decimal(out, n / 10);
    }
    out.append(digit_str(n % 10));
    assert(out@ =~= old(out)@ + decimal(n as nat));
}

fn push_point(out: &mut String, p: Point)
    ensures
        final(out)@ == old(out)@ + point_text(p@),
{
    push_decimal(out, p.x);
    out.append(",");
    push_decimal(out, p.y);
    assert(out@ =~= old(out)@ + point_text(p@));
}

fn push_contour(out: &mut String, contour: &Vec<Point>)
    ensures
        final(out)@ == old(out)@ + contour_text(points_view(contour@)),
{
    let ghost points = points_view(contour@);
    if contour.len() == 0 {
        assert(out@ =~= old(out)@ + contour_text(points));
        return ;
    }
    out.append(" M ");
    push_point(out, contour[0]);
    let ghost lead = out@;
    let mut i: usize = 1;
    assert(out@ =~= lead + lines_text(points, 1));
    while i < contour.len()
        invariant
            1 <= i <= contour.len(),
            points == points_view(contour@),
            out@ == lead + lines_text(points, i as int),
        decreases contour.len() - i,
    {
        out.append(" L ");
        push_point(out, contour[i]);
        i += 1;
        assert(out@ =~= lead + lines_text(points, i as int));
    }
    out.append(" Z");
    assert(out@ =~= old(out)@ + contour_text(points));
}

fn push_style(out: &mut String, color: Color)
    ensures
        final(out)@ == old(out)@ + style_text(color),
{
    out.append("\" style=\"fill:rgb(");
    push_decimal(out, color.r as u32);
    out.append(",");
    push_decimal(out, color.g as u32);
    out.append(",");
    push_decimal(out, color.b as u32);
    out.append("); fill-opacity:");
    out.append(opacity_str(color.a));
    out.append("; stroke:none;\" />");
    assert(out@ =~= old(out)@ + style_text(color));
}

/// Appends the path element of a region: nothing if it has no contours.
pub fn push_shape(out: &mut String, color: Color, contours: &Vec<Vec<Point>>)
    ensures
        final(out)@ == old(out)@ + shape_text(color, contours_view(contours@)),
{
    let ghost loops = contours_view(contours@);
    if contours.len() == 0 {
        assert(out@ =~= old(out)@ + shape_text(color, loops));
        return ;
    }
    out.append(" <path d=\"");
    let ghost lead = out@;
    let mut i: usize = 0;
    assert(out@ =~= lead + contours_text(loops, 0));
    while i < contours.len()
        invariant
            i <= contours.len(),
            loops == contours_view(contours@),
            out@ == lead + contours_text(loops, i as int),
        decreases contours.len() - i,
    {
        push_contour(out, &contours[i]);
        i += 1;
        assert(out@ =~= lead + contours_text(loops, i as int));
    }
    push_style(out, color);
    assert(out@ =~= old(out)@ + shape_text(color, loops));
}

/// The path element of a region with the given colour and contours.
pub fn path_element(color: Color, contours: &Vec<Vec<Point>>) -> (text: String)
    ensures
        text@ == shape_text(color, contours_view(contours@)),
{
    let mut text = String::new();
    push_shape(&mut text, color, contours);
    assert(text@ =~= shape_text(color, contours_view(contours@)));
    text
}

/// The header of a document for a picture `width` wide and `height` high:
/// the XML declaration, the document type and the opening `svg` tag.
pub fn svg_header(width: u32, height: u32) -> (header: String)
    ensures
        header@ == header_text(width as nat, height as nat),
{
    let mut header = String::new();
    header.append(
        "<?xml version=\"1.0\" encoding=\"UTF-8\" standalone=\"no\"?>\n<!DOCTYPE svg PUBLIC \"-//W3C//DTD SVG 1.1//EN\" \n  \"http://www.w3.org/Graphics/SVG/1.1/DTD/svg11.dtd\">\n<svg width=\"",
    );
    push_decimal(&mut header, width);
    header.append("\" height=\"");
    push_decimal(&mut header, height);
    header.append("\"\n     xmlns=\"http://www.w3.org/2000/svg\" version=\"1.1\">\n");
    assert(header@ =~= header_text(width as nat, height as nat));
    header
}

} // verus!
