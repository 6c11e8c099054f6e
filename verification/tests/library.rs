use logo_wasm::cluster::{cluster_image, cluster_settings, ClusterSettings, KeyingAction};
use logo_wasm::color::{color_dist2, Color};
use logo_wasm::image::{
    color_exists_in_image, find_unused_color_in_image, key_image, key_transparent_pixels,
    should_key_image, ColorImage,
};
use logo_wasm::palette::{color_totals, color_totals_checked, dominant_palette, snap_to_palette, sort_by_weight_desc};
use logo_wasm::path_data::{corner_spans, replace_last_pair};
use logo_wasm::svg::{accepts_input, area_totals_fit, empty_svg, logo_svg, render_logo, LogoPath, RawPath};
use logo_wasm::text::{append_decimal, is_white_space_char, to_hex_string, trim_end, trim_fraction_zeros};

fn image_of(colors: &[Color], width: usize, height: usize) -> ColorImage {
    let mut pixels = Vec::new();
    for c in colors {
        pixels.extend_from_slice(&[c.r, c.g, c.b, c.a]);
    }
    ColorImage { pixels, width, height }
}

fn clear() -> Color {
    Color::new_rgba(0, 0, 0, 0)
}

#[test]
fn color_constructors() {
    assert_eq!(Color::new(1, 2, 3), Color { r: 1, g: 2, b: 3, a: 255 });
    assert_eq!(Color::new_rgba(1, 2, 3, 4).a, 4);
    assert_eq!(Color::default(), Color { r: 0, g: 0, b: 0, a: 0 });
}

#[test]
fn color_distance_is_squared_rgb() {
    assert_eq!(color_dist2(Color::new(10, 20, 30), Color::new(13, 16, 30)), 25);
    assert_eq!(color_dist2(Color::new(0, 0, 0), Color::new(255, 255, 255)), 195075);
    // alpha is not part of the distance
    assert_eq!(color_dist2(Color::new_rgba(5, 5, 5, 0), Color::new(5, 5, 5)), 0);
    // symmetric
    assert_eq!(
        color_dist2(Color::new(1, 200, 3), Color::new(90, 7, 60)),
        color_dist2(Color::new(90, 7, 60), Color::new(1, 200, 3))
    );
}

#[test]
fn hex_strings_are_upper_case_rgb() {
    assert_eq!(to_hex_string(Color::new(255, 10, 0)), "#FF0A00");
    assert_eq!(to_hex_string(Color::new_rgba(0, 171, 205, 7)), "#00ABCD");
    let s = to_hex_string(Color::new(18, 52, 254));
    assert_eq!(u8::from_str_radix(&s[1..3], 16), Ok(18));
    assert_eq!(u8::from_str_radix(&s[3..5], 16), Ok(52));
    assert_eq!(u8::from_str_radix(&s[5..7], 16), Ok(254));
}

#[test]
fn decimals_are_written_without_leading_zeros() {
    let mut s = String::from("w=");
    append_decimal(&mut s, 0);
    assert_eq!(s, "w=0");
    let mut s = String::new();
    append_decimal(&mut s, 1254);
    assert_eq!(s, "1254");
    let mut s = String::new();
    append_decimal(&mut s, usize::MAX);
    assert_eq!(s, usize::MAX.to_string());
}

#[test]
fn trim_end_drops_unicode_white_space() {
    assert_eq!(trim_end("M0 0 Z \n\t"), "M0 0 Z");
    assert_eq!(trim_end("a\u{3000}\u{2028} "), "a");
    assert_eq!(trim_end("  "), "");
    assert_eq!(trim_end("x"), "x");
    for c in ['\u{85}', '\u{a0}', '\u{1680}', '\u{2000}', '\u{200a}', '\u{202f}', '\u{205f}'] {
        assert!(is_white_space_char(c));
        assert_eq!(c.is_whitespace(), is_white_space_char(c));
    }
    assert!(!is_white_space_char('\u{200b}'));
    assert!(!is_white_space_char('q'));
}

#[test]
fn fraction_zeros_are_trimmed() {
    assert_eq!(trim_fraction_zeros("1.50"), "1.5");
    assert_eq!(trim_fraction_zeros("2.00"), "2");
    assert_eq!(trim_fraction_zeros("-0.10"), "-0.1");
    assert_eq!(trim_fraction_zeros("100"), "100");
    assert_eq!(trim_fraction_zeros("0.00"), "0");
    assert_eq!(trim_fraction_zeros("12.345"), "12.345");
}

#[test]
fn pixels_are_read_and_written_row_major() {
    let mut img = image_of(
        &[Color::new(1, 1, 1), Color::new(2, 2, 2), Color::new(3, 3, 3), Color::new(4, 4, 4)],
        2,
        2,
    );
    assert_eq!(img.get_pixel(1, 0), Color::new(2, 2, 2));
    assert_eq!(img.get_pixel(0, 1), Color::new(3, 3, 3));
    img.set_pixel(1, 1, clear());
    assert_eq!(img.get_pixel_at(3), clear());
    img.set_pixel_at(0, Color::new(9, 8, 7));
    assert_eq!(img.pixels[0..4], [9, 8, 7, 255]);
}

#[test]
fn color_existence_ignores_alpha() {
    let img = image_of(&[Color::new_rgba(255, 0, 0, 0), Color::new(0, 0, 0)], 2, 1);
    assert!(color_exists_in_image(&img, Color::new(255, 0, 0)));
    assert!(!color_exists_in_image(&img, Color::new(0, 255, 0)));
}

#[test]
fn unused_color_is_the_first_free_candidate() {
    let img = image_of(&[Color::new(255, 0, 0), Color::new(0, 0, 255)], 2, 1);
    assert_eq!(find_unused_color_in_image(&img), Ok(Color::new(0, 255, 0)));
    let all = [
        Color::new(255, 0, 0),
        Color::new(0, 255, 0),
        Color::new(0, 0, 255),
        Color::new(255, 255, 0),
        Color::new(0, 255, 255),
        Color::new(255, 0, 255),
        Color::new(128, 128, 128),
        Color::new(1, 2, 3),
    ];
    let img = image_of(&all, 4, 2);
    assert_eq!(find_unused_color_in_image(&img), Err(String::from("no unused color")));
    let img = image_of(&all[..7], 7, 1);
    assert_eq!(find_unused_color_in_image(&img), Ok(Color::new(1, 2, 3)));
}

#[test]
fn transparent_background_is_detected_on_sampled_rows() {
    // 4x4 fully transparent: sampled rows 0, 1, 2, 3, 3 give 20 transparent pixels
    let img = image_of(&[clear(); 16], 4, 4);
    assert!(should_key_image(&img, 1));
    assert!(should_key_image(&img, 20));
    assert!(!should_key_image(&img, 21));
    // an opaque image has none, but a zero threshold is always met
    let opaque = image_of(&[Color::new(9, 9, 9); 16], 4, 4);
    assert!(!should_key_image(&opaque, 1));
    assert!(should_key_image(&opaque, 0));
    // an empty image is never keyed
    let empty = ColorImage { pixels: Vec::new(), width: 0, height: 5 };
    assert!(!should_key_image(&empty, 0));
    // only the sampled rows count: 1x8 image, rows 0, 2, 4, 6, 7 are sampled
    let mut colors = [Color::new(9, 9, 9); 8];
    colors[1] = clear();
    colors[3] = clear();
    colors[5] = clear();
    let img = image_of(&colors, 1, 8);
    assert!(!should_key_image(&img, 1));
    colors[7] = clear();
    let img = image_of(&colors, 1, 8);
    assert!(should_key_image(&img, 1));
    assert!(!should_key_image(&img, 2));
}

#[test]
fn keying_paints_transparent_pixels_with_an_unused_color() {
    let mut img = image_of(&[clear(), Color::new(255, 0, 0), clear(), Color::new(5, 5, 5)], 2, 2);
    let key = key_image(&mut img, 1);
    assert_eq!(key, Color::new(0, 255, 0));
    assert_eq!(img.get_pixel(0, 0), key);
    assert_eq!(img.get_pixel(1, 0), Color::new(255, 0, 0));
    assert_eq!(img.get_pixel(0, 1), key);
    assert_eq!(img.get_pixel(1, 1), Color::new(5, 5, 5));
    // no pixel is transparent any more
    for i in 0..4 {
        assert_ne!(img.get_pixel_at(i).a, 0);
    }
}

#[test]
fn keying_is_skipped_below_the_threshold() {
    let before = image_of(&[clear(), Color::new(1, 1, 1), Color::new(1, 1, 1), Color::new(1, 1, 1)], 2, 2);
    let mut img = image_of(&[clear(), Color::new(1, 1, 1), Color::new(1, 1, 1), Color::new(1, 1, 1)], 2, 2);
    // rows 0, 0, 1, 1, 1 are sampled for height 2: 2 transparent pixels
    let key = key_image(&mut img, 3);
    assert_eq!(key, Color::default());
    assert_eq!(img.pixels, before.pixels);
    let key = key_image(&mut img, 2);
    assert_eq!(key, Color::new(255, 0, 0));
    assert_eq!(img.get_pixel(0, 0), Color::new(255, 0, 0));
}

#[test]
fn key_transparent_pixels_keeps_other_pixels() {
    let mut img = image_of(&[Color::new_rgba(3, 3, 3, 1), clear()], 2, 1);
    key_transparent_pixels(&mut img, Color::new(1, 2, 3));
    assert_eq!(img.get_pixel_at(0), Color::new_rgba(3, 3, 3, 1));
    assert_eq!(img.get_pixel_at(1), Color::new(1, 2, 3));
}

#[test]
fn snapping_picks_the_first_nearest_palette_color() {
    let palette = [Color::new(0, 0, 0), Color::new(200, 200, 200), Color::new(100, 100, 100)];
    assert_eq!(snap_to_palette(Color::new(90, 95, 120), &palette), Color::new(100, 100, 100));
    assert_eq!(snap_to_palette(Color::new(10, 0, 0), &palette), Color::new(0, 0, 0));
    // equally near to (0,0,0) and (100,100,100)? (50,50,50): both at 7500 -> the first
    assert_eq!(snap_to_palette(Color::new(50, 50, 50), &palette), Color::new(0, 0, 0));
    // empty palette keeps the color
    assert_eq!(snap_to_palette(Color::new_rgba(1, 2, 3, 4), &[]), Color::new_rgba(1, 2, 3, 4));
    // a palette color snaps to itself
    assert_eq!(snap_to_palette(Color::new(200, 200, 200), &palette), Color::new(200, 200, 200));
}

#[test]
fn totals_are_summed_per_rgb_in_first_occurrence_order() {
    let weighted = [
        (Color::new(1, 1, 1), 5),
        (Color::new(2, 2, 2), 7),
        (Color::new_rgba(1, 1, 1, 9), 4),
    ];
    let totals = color_totals(&weighted);
    assert_eq!(totals, vec![(Color::new(1, 1, 1), 9), (Color::new(2, 2, 2), 7)]);
    let sorted = sort_by_weight_desc(&vec![
        (Color::new(1, 1, 1), 3),
        (Color::new(2, 2, 2), 8),
        (Color::new(3, 3, 3), 3),
        (Color::new(4, 4, 4), 9),
    ]);
    assert_eq!(
        sorted,
        vec![
            (Color::new(4, 4, 4), 9),
            (Color::new(2, 2, 2), 8),
            (Color::new(1, 1, 1), 3),
            (Color::new(3, 3, 3), 3),
        ]
    );
}

#[test]
fn dominant_palette_merges_near_colors_and_keeps_the_heaviest() {
    let weighted = [
        (Color::new(250, 250, 250), 100), // white background
        (Color::new(10, 10, 10), 40),     // black text
        (Color::new(245, 248, 250), 30),  // anti-aliased white
        (Color::new(200, 30, 30), 20),    // red accent
        (Color::new(20, 12, 8), 10),      // anti-aliased black
    ];
    let palette = dominant_palette(&weighted, 4, 90 * 90 * 3);
    assert_eq!(palette, vec![Color::new(250, 250, 250), Color::new(10, 10, 10), Color::new(200, 30, 30)]);
    // at most max_colors
    let palette = dominant_palette(&weighted, 2, 90 * 90 * 3);
    assert_eq!(palette, vec![Color::new(250, 250, 250), Color::new(10, 10, 10)]);
    // with a negative threshold nothing merges; weights are summed per RGB value first
    let weighted = [
        (Color::new(1, 1, 1), 1),
        (Color::new(2, 2, 2), 3),
        (Color::new_rgba(1, 1, 1, 0), 3),
    ];
    let palette = dominant_palette(&weighted, 10, -1);
    assert_eq!(palette, vec![Color::new(1, 1, 1), Color::new(2, 2, 2)]);
    assert!(dominant_palette(&[], 4, 0).is_empty());
    assert!(dominant_palette(&weighted, 0, 0).is_empty());
}

#[test]
fn dominant_palette_laws_hold_on_an_example() {
    let mut weighted = Vec::new();
    for i in 0..40u32 {
        let c = Color::new((i * 37 % 256) as u8, (i * 91 % 256) as u8, (i * 53 % 256) as u8);
        weighted.push((c, (i as usize * 7) % 13));
    }
    let thr = 60 * 60 * 3;
    let palette = dominant_palette(&weighted, 5, thr);
    assert!(palette.len() <= 5);
    for i in 0..palette.len() {
        assert_eq!(palette[i].a, 255);
        for j in i + 1..palette.len() {
            assert!(color_dist2(palette[i], palette[j]) > thr);
        }
    }
    if palette.len() < 5 {
        for (c, _) in &weighted {
            assert!(palette.iter().any(|&p| color_dist2(*c, p) <= thr));
        }
    }
}

#[test]
fn svg_document_is_written_exactly() {
    let paths = vec![
        LogoPath { d: String::from("M0 0 L10 0 L10 10 Z \n"), color: Color::new(255, 0, 0) },
        LogoPath { d: String::from("M1 1 Z"), color: Color::new(0, 16, 255) },
    ];
    let svg = logo_svg(120, 45, &paths, "logo-wasm");
    let expected = "<?xml version=\"1.0\" encoding=\"UTF-8\"?>\n\
<!-- Generator: logo-wasm (logo mode) -->\n\
<svg version=\"1.1\" xmlns=\"http://www.w3.org/2000/svg\" width=\"120\" height=\"45\" viewBox=\"0 0 120 45\">\n\
<path d=\"M0 0 L10 0 L10 10 Z\" fill=\"#FF0000\"/>\n\
<path d=\"M1 1 Z\" fill=\"#0010FF\"/>\n\
</svg>\n";
    assert_eq!(svg, expected);
    let none = logo_svg(0, 0, &[], "g");
    assert!(none.ends_with("viewBox=\"0 0 0 0\">\n</svg>\n"));
}

#[test]
fn rendering_snaps_contours_to_the_dominant_palette() {
    let raw = vec![
        RawPath { d: String::from("M0 0 L4 0 L4 4 Z "), color: Color::new(0, 0, 0), area: 50 },
        RawPath { d: String::from("M1 1 L2 1 L2 2 Z "), color: Color::new(12, 3, 5), area: 2 },
        RawPath { d: String::from("M5 5 L6 5 L6 6 Z "), color: Color::new(240, 240, 240), area: 30 },
    ];
    let svg = render_logo(8, 8, &raw, 4, 90 * 90 * 3, "t");
    assert!(svg.contains("<path d=\"M0 0 L4 0 L4 4 Z\" fill=\"#000000\"/>\n"));
    assert!(svg.contains("<path d=\"M1 1 L2 1 L2 2 Z\" fill=\"#000000\"/>\n"));
    assert!(svg.contains("<path d=\"M5 5 L6 5 L6 6 Z\" fill=\"#F0F0F0\"/>\n"));
    assert_eq!(svg.matches("<path").count(), 3);
}

#[test]
fn input_is_accepted_only_with_four_bytes_per_pixel() {
    assert!(accepts_input(24, 3, 2));
    assert!(!accepts_input(23, 3, 2));
    assert!(!accepts_input(0, 0, 2));
    assert!(!accepts_input(0, 2, 0));
    assert!(!accepts_input(usize::MAX, usize::MAX, 2));
    assert_eq!(empty_svg(), "<svg xmlns=\"http://www.w3.org/2000/svg\"></svg>");
}

#[test]
fn contours_split_into_spans_between_corners() {
    assert_eq!(corner_spans(4, &[false, false, false, false]), vec![vec![0, 1, 2, 3, 0]]);
    assert_eq!(corner_spans(4, &[true, false, true, false]), vec![vec![0, 1, 2], vec![2, 3, 0]]);
    assert_eq!(corner_spans(5, &[false, true, false, false, true]), vec![vec![1, 2, 3, 4], vec![4, 0, 1]]);
    assert_eq!(corner_spans(3, &[true, true, true]), vec![vec![0, 1], vec![1, 2], vec![2, 0]]);
    // a single corner gives one span holding it alone
    assert_eq!(corner_spans(4, &[false, false, true, false]), vec![vec![2]]);
    // flags past the first n points are not read
    assert_eq!(corner_spans(2, &[false, false, true]), vec![vec![0, 1, 0]]);
}

#[test]
fn last_coordinate_pair_is_replaced() {
    let mut d = String::from("M1 2 L3.5 -4  ");
    replace_last_pair(&mut d, "0 0 ");
    assert_eq!(d, "M1 2 L0 0 ");
    let mut d = String::from("M10 20 C1 2 3 4 5.25 6 ");
    replace_last_pair(&mut d, "7 8 ");
    assert_eq!(d, "M10 20 C1 2 3 4 7 8 ");
    let mut d = String::from("M5 5 ");
    replace_last_pair(&mut d, "1 1 ");
    assert_eq!(d, "M1 1 ");
    let mut d = String::new();
    replace_last_pair(&mut d, "x");
    assert_eq!(d, "x");
}

#[test]
fn logo_preset_cluster_settings() {
    let s = cluster_settings(100, 50, 4, 16, Color::new(0, 255, 0));
    assert_eq!(
        s,
        ClusterSettings {
            diagonal: false,
            hierarchical: u32::MAX,
            batch_size: 25600,
            good_min_area: 256,
            good_max_area: 5000,
            is_same_color_a: 4,
            is_same_color_b: 1,
            deepen_diff: 16,
            hollow_neighbours: 1,
            key_color: Color::new(0, 255, 0),
            keying_action: KeyingAction::Discard,
        }
    );
    assert_eq!(cluster_settings(1, 1, 8, 0, Color::default()).is_same_color_a, 0);
}

#[test]
fn clustering_runs_on_the_given_pixels() {
    // left half black, right half white, 8x8
    let mut colors = Vec::new();
    for _y in 0..8 {
        for x in 0..8 {
            colors.push(if x < 4 { Color::new(0, 0, 0) } else { Color::new(255, 255, 255) });
        }
    }
    let img = image_of(&colors, 8, 8);
    let bytes = img.pixels.clone();
    let clusters = cluster_image(img, Color::default(), 8, 2);
    let view = clusters.view();
    assert_eq!(view.width, 8);
    assert_eq!(view.height, 8);
    assert_eq!(view.pixels, &bytes[..]);
    assert!(view.clusters_output.iter().all(|&i| view.get_cluster(i).area() <= 64));
}

#[test]
fn totals_that_overflow_are_reported() {
    let weighted = [(Color::new(1, 1, 1), usize::MAX), (Color::new(2, 2, 2), 5)];
    assert!(color_totals_checked(&weighted).is_some());
    let weighted = [(Color::new(1, 1, 1), usize::MAX), (Color::new_rgba(1, 1, 1, 0), 1)];
    assert!(color_totals_checked(&weighted).is_none());
    let raw = vec![
        RawPath { d: String::new(), color: Color::new(3, 3, 3), area: usize::MAX },
        RawPath { d: String::new(), color: Color::new(3, 3, 3), area: 1 },
    ];
    assert!(!area_totals_fit(&raw));
    assert!(area_totals_fit(&raw[..1]));
}

#[test]
fn trimming_twice_changes_nothing() {
    for s in ["a b \t", "", " x\u{2029}", "M1 2 Z "] {
        let once = trim_end(s);
        assert_eq!(trim_end(once), once);
        assert!(s.starts_with(once));
    }
}
