//! The SVG document of a traced logo: one `<path>` per cleaned contour, filled with its
//! palette-snapped color, and the assembly of that document from the traced contours.

use vstd::prelude::*;
use crate::color::Color;
use crate::palette::{color_totals_checked, dominant, dominant_palette, snap_to_palette, snapped, totals_fit};
use crate::text::{append_decimal, decimal, decimal_value, hex_color, lemma_decimal_reads_back, to_hex_string, trim_end, trim_end_spec};

verus! {

/// A cleaned logo path: an SVG path-data fragment and its fill color.
pub struct LogoPath {
    pub d: String,
    pub color: Color,
}

/// A traced contour before palette snapping: its path data, the color of its cluster
/// and the cluster's area in pixels.
pub struct RawPath {
    pub d: String,
    pub color: Color,
    pub area: usize,
}

/// The XML declaration, the generator comment and the opening `<svg>` tag.
pub open spec fn svg_header(width: nat, height: nat, generator: Seq<char>) -> Seq<char> {
    "<?xml version=\"1.0\" encoding=\"UTF-8\"?>\n"@ + "<!-- Generator: "@ + generator
        + " (logo mode) -->\n"@ + "<svg version=\"1.1\" xmlns=\"http://www.w3.org/2000/svg\" width=\""@
        + decimal(width) + "\" height=\""@ + decimal(height) + "\" viewBox=\"0 0 "@ + decimal(width)
        + " "@ + decimal(height) + "\">\n"@
}

/// The `<path>` element of one path; trailing white space of its data is dropped.
pub open spec fn path_element(d: Seq<char>, color: Color) -> Seq<char> {
    "<path d=\""@ + trim_end_spec(d) + "\" fill=\""@ + hex_color(color) + "\"/>\n"@
}

/// The `<path>` elements of the paths, in order.
pub open spec fn path_elements(paths: Seq<LogoPath>) -> Seq<char>
    decreases paths.len(),
{
    if paths.len() == 0 {
        Seq::empty()
    } else {
        path_elements(paths.drop_last()) + path_element(paths.last().d@, paths.last().color)
    }
}

/// The complete SVG document of a logo.
pub open spec fn svg_document(width: nat, height: nat, paths: Seq<LogoPath>, generator: Seq<char>) -> Seq<char> {
    svg_header(width, height, generator) + path_elements(paths) + "</svg>\n"@
}

/// Serializes cleaned logo paths into a complete SVG document of the given size.
pub fn logo_svg(width: usize, height: usize, paths: &[LogoPath], generator: &str) -> (out: String)
    ensures
        out@ == svg_document(width as nat, height as nat, paths@, generator@),
{
    let mut out = String::new();
    out.append("<?xml version=\"1.0\" encoding=\"UTF-8\"?>\n");
    out.append("<!-- Generator: ");
    out.append(generator);
    out.append(" (logo mode) -->\n");
    out.append("<svg version=\"1.1\" xmlns=\"http://www.w3.org/2000/svg\" width=\"");
    append_decimal(&mut out, width);
    out.append("\" height=\"");
    append_decimal(&mut out, height);
    out.append("\" viewBox=\"0 0 ");
    append_decimal(&mut out, width);
    out.append(" ");
    append_decimal(&mut out, height);
    out.append("\">\n");
    let ghost header = out@;
    assert(header =~= svg_header(width as nat, height as nat, generator@));
    let n = paths.len();
    let mut i: usize = 0;
    assert(paths@.take(0) =~= Seq::<LogoPath>::empty());
    while i < n
        invariant
            n == paths@.len(),
            i <= n,
            header == svg_header(width as nat, height as nat, generator@),
            out@ == header + path_elements(paths@.take(i as int)),
        decreases n - i,
    {
        let p = &paths[i];
        out.append("<path d=\"");
        out.append(trim_end(p.d.as_str()));
        out.append("\" fill=\"");
        let hex = to_hex_string(p.color);
        out.append(hex.as_str());
        out.append("\"/>\n");
        proof {
            assert(paths@.take(i + 1).drop_last() =~= paths@.take(i as int));
            assert(paths@.take(i + 1).last() == paths@[i as int]);
            assert(out@ =~= header + path_elements(paths@.take(i + 1)));
        }
        i = i + 1;
    }
    out.append("</svg>\n");
    assert(paths@.take(n as int) =~= paths@);
    assert(out@ =~= svg_document(width as nat, height as nat, paths@, generator@));
    out
}

/// The colors of the traced contours, weighted by their clusters' areas.
pub open spec fn area_weights(raw: Seq<RawPath>) -> Seq<(Color, usize)> {
    Seq::new(raw.len(), |i: int| (raw[i].color, raw[i].area))
}

/// The traced contours with their colors snapped to the palette.
pub open spec fn snapped_paths(raw: Seq<RawPath>, palette: Seq<Color>) -> Seq<LogoPath> {
    Seq::new(raw.len(), |i: int| LogoPath { d: raw[i].d, color: snapped(raw[i].color, palette) })
}

/// The SVG document of traced contours: the dominant palette of their area-weighted
/// colors is built, each contour's color is snapped to it, and the paths are serialized.
pub open spec fn logo_document(
    width: nat,
    height: nat,
    raw: Seq<RawPath>,
    max_colors: nat,
    merge_threshold: int,
    generator: Seq<char>,
) -> Seq<char> {
    svg_document(
        width,
        height,
        snapped_paths(raw, dominant(area_weights(raw), max_colors, merge_threshold)),
        generator,
    )
}

/// The contours' colors weighted by area, in order.
fn area_weight_list(raw: &[RawPath]) -> (weighted: Vec<(Color, usize)>)
    ensures
        weighted@ == area_weights(raw@),
{
    let n = raw.len();
    let mut weighted: Vec<(Color, usize)> = Vec::new();
    let mut i: usize = 0;
    while i < n
        invariant
            n == raw@.len(),
            i <= n,
            weighted@ == area_weights(raw@).take(i as int),
        decreases n - i,
    {
        weighted.push((raw[i].color, raw[i].area));
        i = i + 1;
        assert(weighted@ =~= area_weights(raw@).take(i as int));
    }
    assert(weighted@ =~= area_weights(raw@));
    weighted
}

/// Whether the contours' areas, summed per RGB value of their colors, all fit in a
/// `usize` (what `render_logo` needs).
pub fn area_totals_fit(raw: &[RawPath]) -> (b: bool)
    ensures
        b == totals_fit(area_weights(raw@)),
{
    let weighted = area_weight_list(raw);
    color_totals_checked(weighted.as_slice()).is_some()
}

/// Builds the logo's SVG document from its traced contours: a dominant palette of at
/// most `max_colors` colors is taken from the contours' colors weighted by area (colors
/// within `merge_threshold` squared RGB distance of a heavier one are merged into it),
/// every contour is filled with its nearest palette color, and the document is written.
pub fn render_logo(
    width: usize,
    height: usize,
    raw: &[RawPath],
    max_colors: usize,
    merge_threshold: i32,
    generator: &str,
) -> (out: String)
    requires
        totals_fit(area_weights(raw@)),
    ensures
        out@ == logo_document(width as nat, height as nat, raw@, max_colors as nat, merge_threshold as int, generator@),
{
    let n = raw.len();
    let weighted = area_weight_list(raw);
    let palette = dominant_palette(weighted.as_slice(), max_colors, merge_threshold);
    let ghost pal = dominant(area_weights(raw@), max_colors as nat, merge_threshold as int);
    let mut paths: Vec<LogoPath> = Vec::new();
    let mut j: usize = 0;
    while j < n
        invariant
            n == raw@.len(),
            j <= n,
            palette@ == pal,
            paths@.len() == j,
            forall|k: int| 0 <= k < j ==> (#[trigger] paths@[k]).d@ == raw@[k].d@ && paths@[k].color == snapped(raw@[k].color, pal),
        decreases n - j,
    {
        let d = raw[j].d.clone();
        let color = snap_to_palette(raw[j].color, palette.as_slice());
        paths.push(LogoPath { d, color });
        j = j + 1;
    }
    let out = logo_svg(width, height, paths.as_slice(), generator);
    proof {
        lemma_path_elements_ext(paths@, snapped_paths(raw@, pal));
    }
    out
}

/// The `<path>` elements depend only on each path's data and color.
proof fn lemma_path_elements_ext(a: Seq<LogoPath>, b: Seq<LogoPath>)
    requires
        a.len() == b.len(),
        forall|k: int| 0 <= k < a.len() ==> (#[trigger] a[k]).d@ == b[k].d@ && a[k].color == b[k].color,
    ensures
        path_elements(a) == path_elements(b),
    decreases a.len(),
{
    if a.len() > 0 {
        lemma_path_elements_ext(a.drop_last(), b.drop_last());
        assert(a.last() == a[a.len() - 1]);
    }
}

/// Whether a raw RGBA buffer describes a non-empty `width` x `height` image: it holds
/// exactly four bytes per pixel and both sides are positive.
pub fn accepts_input(len: usize, width: usize, height: usize) -> (b: bool)
    ensures
        b == (width > 0 && height > 0 && len == width * height * 4),
{
    if width == 0 || height == 0 {
        return false;
    }
    match width.checked_mul(height) {
        Some(area) => match area.checked_mul(4) {
            Some(bytes) => bytes == len,
            None => false,
        },
        None => {
            assert(width * height * 4 >= width * height) by (nonlinear_arith)
                requires width > 0 && height > 0;
            false
        },
    }
}

/// The SVG document given back for input that does not describe an image.
pub fn empty_svg() -> (s: String)
    ensures
        s@ == "<svg xmlns=\"http://www.w3.org/2000/svg\"></svg>"@,
{
    String::from_str("<svg xmlns=\"http://www.w3.org/2000/svg\"></svg>")
}

/// The `<svg>` tag gives the width and then the height, in its attributes and in its
/// `viewBox`, whichever is larger: the header ends with
/// `width="W" height="H" viewBox="0 0 W H">` and a newline.
pub proof fn lemma_svg_header_size(width: nat, height: nat, generator: Seq<char>)
    ensures
        ({
            let tail = "width=\""@ + decimal(width) + "\" height=\""@ + decimal(height) + "\" viewBox=\"0 0 "@
                + decimal(width) + " "@ + decimal(height) + "\">\n"@;
            let hd = svg_header(width, height, generator);
            &&& hd.len() >= tail.len()
            &&& hd.subrange(hd.len() - tail.len(), hd.len() as int) == tail
        }),
        decimal_value(decimal(width)) == width,
        decimal_value(decimal(height)) == height,
{
    let tail = "width=\""@ + decimal(width) + "\" height=\""@ + decimal(height) + "\" viewBox=\"0 0 "@
        + decimal(width) + " "@ + decimal(height) + "\">\n"@;
    let pre = "<?xml version=\"1.0\" encoding=\"UTF-8\"?>\n"@ + "<!-- Generator: "@ + generator
        + " (logo mode) -->\n"@ + "<svg version=\"1.1\" xmlns=\"http://www.w3.org/2000/svg\" "@;
    reveal_strlit("<svg version=\"1.1\" xmlns=\"http://www.w3.org/2000/svg\" width=\"");
    reveal_strlit("<svg version=\"1.1\" xmlns=\"http://www.w3.org/2000/svg\" ");
    reveal_strlit("width=\"");
    assert("<svg version=\"1.1\" xmlns=\"http://www.w3.org/2000/svg\" width=\""@ =~= "<svg version=\"1.1\" xmlns=\"http://www.w3.org/2000/svg\" "@
        + "width=\""@);
    let hd = svg_header(width, height, generator);
    assert(hd =~= pre + tail);
    assert(hd.subrange(hd.len() - tail.len(), hd.len() as int) =~= tail);
    lemma_decimal_reads_back(width);
    lemma_decimal_reads_back(height);
}

/// Serialization keeps the order of the paths: path `k`'s element comes after the
/// elements of the paths before it and before those of the paths after it.
pub proof fn lemma_path_elements_in_order(paths: Seq<LogoPath>, k: int)
    requires
        0 <= k < paths.len(),
    ensures
        path_elements(paths) == path_elements(paths.take(k)) + path_element(paths[k].d@, paths[k].color)
            + path_elements(paths.skip(k + 1)),
    decreases paths.len(),
{
    if k == paths.len() - 1 {
        assert(paths.drop_last() =~= paths.take(k));
        assert(paths.skip(k + 1) =~= Seq::<LogoPath>::empty());
        assert(path_elements(paths.skip(k + 1)) =~= Seq::<char>::empty());
    } else {
        let p0 = paths.drop_last();
        lemma_path_elements_in_order(p0, k);
        assert(p0.take(k) =~= paths.take(k));
        assert(p0[k] == paths[k]);
        let r = paths.skip(k + 1);
        assert(r.drop_last() =~= p0.skip(k + 1));
        assert(r.last() == paths.last());
    }
}

/// Rendering keeps the contours in order, one path each: path `k` of the document has
/// the data of contour `k` and the palette color nearest to contour `k`'s color.
pub proof fn lemma_render_keeps_contour_order(raw: Seq<RawPath>, palette: Seq<Color>, k: int)
    requires
        0 <= k < raw.len(),
    ensures
        snapped_paths(raw, palette).len() == raw.len(),
        snapped_paths(raw, palette)[k].d@ == raw[k].d@,
        snapped_paths(raw, palette)[k].color == snapped(raw[k].color, palette),
        path_elements(snapped_paths(raw, palette)) == path_elements(snapped_paths(raw, palette).take(k))
            + path_element(raw[k].d@, snapped(raw[k].color, palette)) + path_elements(
            snapped_paths(raw, palette).skip(k + 1),
        ),
{
    lemma_path_elements_in_order(snapped_paths(raw, palette), k);
}

} // verus!
