//! RGBA raster images and the transparency keying that runs before clustering:
//! detecting a transparent background, finding a color the image does not use, and
//! painting the transparent pixels with it.

use vstd::prelude::*;
use crate::color::{Color, same_rgb};

verus! {

/// A raster of `width * height` RGBA pixels, row by row, four bytes per pixel.
pub struct ColorImage {
    pub pixels: Vec<u8>,
    pub width: usize,
    pub height: usize,
}

/// The color of pixel `i` (row-major) in a byte sequence of RGBA pixels.
pub open spec fn pixel_of(p: Seq<u8>, i: int) -> Color {
    Color { r: p[4 * i], g: p[4 * i + 1], b: p[4 * i + 2], a: p[4 * i + 3] }
}

impl ColorImage {
    /// The pixel buffer holds exactly four bytes for each of the `width * height` pixels.
    pub open spec fn wf(&self) -> bool {
        self.pixels@.len() == self.width * self.height * 4
    }

    /// The number of pixels.
    pub open spec fn size(&self) -> int {
        self.width * self.height
    }

    /// The color of pixel `i`.
    pub open spec fn pixel(&self, i: int) -> Color {
        pixel_of(self.pixels@, i)
    }

    /// Some pixel has the red, green and blue channels of `c`.
    pub open spec fn has_rgb(&self, c: Color) -> bool {
        exists|i: int| 0 <= i < self.size() && #[trigger] same_rgb(self.pixel(i), c)
    }

    /// The color of pixel number `index` (row-major).
    pub fn get_pixel_at(&self, index: usize) -> (c: Color)
        requires
            self.wf(),
            index < self.size(),
        ensures
            c == self.pixel(index as int),
    {
        let _len = self.pixels.len();
        let i = index * 4;
        Color::new_rgba(self.pixels[i], self.pixels[i + 1], self.pixels[i + 2], self.pixels[i + 3])
    }

    /// The color of the pixel in column `x` and row `y`.
    pub fn get_pixel(&self, x: usize, y: usize) -> (c: Color)
        requires
            self.wf(),
            x < self.width,
            y < self.height,
        ensures
            c == self.pixel(y * self.width + x),
    {
        let _len = self.pixels.len();
        proof {
            lemma_index_in_bounds(x as int, y as int, self.width as int, self.height as int);
        }
        self.get_pixel_at(y * self.width + x)
    }

    /// Paints pixel number `index` with `color`, alpha included.
    pub fn set_pixel_at(&mut self, index: usize, color: Color)
        requires
            old(self).wf(),
            index < old(self).size(),
        ensures
            final(self).wf(),
            final(self).width == old(self).width,
            final(self).height == old(self).height,
            final(self).pixel(index as int) == color,
            forall|j: int| 0 <= j < old(self).size() && j != index ==> #[trigger] final(self).pixel(j) == old(self).pixel(j),
    {
        let _len = self.pixels.len();
        let i = index * 4;
        self.pixels.set(i, color.r);
        self.pixels.set(i + 1, color.g);
        self.pixels.set(i + 2, color.b);
        self.pixels.set(i + 3, color.a);
    }

    /// Paints the pixel in column `x` and row `y` with `color`, alpha included.
    pub fn set_pixel(&mut self, x: usize, y: usize, color: Color)
        requires
            old(self).wf(),
            x < old(self).width,
            y < old(self).height,
        ensures
            final(self).wf(),
            final(self).width == old(self).width,
            final(self).height == old(self).height,
            final(self).pixel(y * old(self).width + x) == color,
            forall|j: int| 0 <= j < old(self).size() && j != y * old(self).width + x ==> #[trigger] final(self).pixel(j) == old(self).pixel(j),
    {
        let _len = self.pixels.len();
        proof {
            lemma_index_in_bounds(x as int, y as int, self.width as int, self.height as int);
        }
        self.set_pixel_at(y * self.width + x, color);
    }
}

/// A pixel position inside the raster has a row-major index below `width * height`.
pub proof fn lemma_index_in_bounds(x: int, y: int, w: int, h: int)
    requires
        0 <= x < w,
        0 <= y < h,
    ensures
        0 <= y * w <= y * w + x < w * h,
{
    assert(0 <= y * w <= y * w + x < w * h) by (nonlinear_arith)
        requires
            0 <= x < w,
            0 <= y < h,
    ;
}

/// Whether some pixel of the image has the red, green and blue channels of `color`
/// (its alpha is not compared).
pub fn color_exists_in_image(img: &ColorImage, color: Color) -> (b: bool)
    requires
        img.wf(),
    ensures
        b == img.has_rgb(color),
{
    let _len = img.pixels.len();
    let n = img.width * img.height;
    let mut i: usize = 0;
    while i < n
        invariant
            img.wf(),
            n == img.size(),
            i <= n,
            forall|j: int| 0 <= j < i ==> !#[trigger] same_rgb(img.pixel(j), color),
        decreases n - i,
    {
        let p = img.get_pixel_at(i);
        if p.r == color.r && p.g == color.g && p.b == color.b {
            assert(same_rgb(img.pixel(i as int), color));
            return true;
        }
        i = i + 1;
    }
    false
}

/// The colors tried, in order, as a key for transparent pixels.
pub open spec fn key_candidates() -> Seq<Color> {
    seq![
        Color { r: 255, g: 0, b: 0, a: 255 },
        Color { r: 0, g: 255, b: 0, a: 255 },
        Color { r: 0, g: 0, b: 255, a: 255 },
        Color { r: 255, g: 255, b: 0, a: 255 },
        Color { r: 0, g: 255, b: 255, a: 255 },
        Color { r: 255, g: 0, b: 255, a: 255 },
        Color { r: 128, g: 128, b: 128, a: 255 },
        Color { r: 1, g: 2, b: 3, a: 255 },
    ]
}

/// Some key candidate does not occur (by RGB) in the image.
pub open spec fn has_unused_candidate(img: &ColorImage) -> bool {
    exists|k: int| 0 <= k < key_candidates().len() && !img.has_rgb(#[trigger] key_candidates()[k])
}

/// The first key candidate that does not occur (by RGB) in the image; meaningful when
/// `has_unused_candidate(img)`.
pub open spec fn first_unused_candidate(img: &ColorImage) -> Color {
    let k = choose|k: int|
        0 <= k < key_candidates().len() && !img.has_rgb(#[trigger] key_candidates()[k]) && forall|j: int|
            0 <= j < k ==> img.has_rgb(#[trigger] key_candidates()[j]);
    key_candidates()[k]
}

/// Picks a color that the image does not use, to stand for its transparent pixels:
/// the first of red, green, blue, yellow, cyan, magenta, grey and (1, 2, 3) that no
/// pixel has (by RGB), or the error "no unused color" when the image uses all of them.
pub fn find_unused_color_in_image(img: &ColorImage) -> (res: Result<Color, String>)
    requires
        img.wf(),
    ensures
        res is Ok <==> has_unused_candidate(img),
        res matches Ok(c) ==> c == first_unused_candidate(img) && !img.has_rgb(c),
        res matches Err(e) ==> e@ == "no unused color"@,
{
    let candidates: [Color; 8] = [
        Color::new(255, 0, 0),
        Color::new(0, 255, 0),
        Color::new(0, 0, 255),
        Color::new(255, 255, 0),
        Color::new(0, 255, 255),
        Color::new(255, 0, 255),
        Color::new(128, 128, 128),
        Color::new(1, 2, 3),
    ];
    assert(candidates@ =~= key_candidates());
    let mut k: usize = 0;
    while k < 8
        invariant
            img.wf(),
            candidates@ == key_candidates(),
            k <= 8,
            forall|j: int| 0 <= j < k ==> img.has_rgb(#[trigger] key_candidates()[j]),
        decreases 8 - k,
    {
        let c = candidates[k];
        if !color_exists_in_image(img, c) {
            proof {
                let kk = k as int;
                assert(!img.has_rgb(key_candidates()[kk]));
                let w = choose|w: int|
                    0 <= w < key_candidates().len() && !img.has_rgb(#[trigger] key_candidates()[w])
                        && forall|j: int| 0 <= j < w ==> img.has_rgb(#[trigger] key_candidates()[j]);
                assert(0 <= kk < key_candidates().len() && !img.has_rgb(key_candidates()[kk])
                    && forall|j: int| 0 <= j < kk ==> img.has_rgb(#[trigger] key_candidates()[j]));
                if w < kk {
                    assert(img.has_rgb(key_candidates()[w]));
                } else if w > kk {
                    assert(img.has_rgb(key_candidates()[kk]));
                }
            }
            return Ok(c);
        }
        k = k + 1;
    }
    proof {
        assert(forall|j: int| 0 <= j < key_candidates().len() ==> img.has_rgb(#[trigger] key_candidates()[j]));
    }
    Err(String::from_str("no unused color"))
}

/// The number of fully transparent pixels among the first `x` pixels of row `y`.
pub open spec fn transparent_in_row(img: &ColorImage, y: int, x: int) -> nat
    decreases x,
{
    if x <= 0 {
        0
    } else {
        transparent_in_row(img, y, x - 1) + if img.pixel(y * img.width + (x - 1)).a == 0 {
            1nat
        } else {
            0nat
        }
    }
}

/// The rows that are sampled to detect a transparent background: the first, the
/// quarter, the middle, the three-quarter and the last row (a row may come twice).
pub open spec fn sample_rows(h: int) -> Seq<int> {
    seq![0, h / 4, h / 2, 3 * h / 4, h - 1]
}

/// The number of fully transparent pixels in the first `r` sampled rows, counted
/// with their multiplicity.
pub open spec fn transparent_in_sampled_rows(img: &ColorImage, r: int) -> nat
    decreases r,
{
    if r <= 0 {
        0
    } else {
        transparent_in_sampled_rows(img, r - 1) + transparent_in_row(
            img,
            sample_rows(img.height as int)[r - 1],
            img.width as int,
        )
    }
}

proof fn lemma_row_count_monotone(img: &ColorImage, y: int, x1: int, x2: int)
    requires
        0 <= x1 <= x2,
    ensures
        transparent_in_row(img, y, x1) <= transparent_in_row(img, y, x2),
    decreases x2 - x1,
{
    if x1 < x2 {
        lemma_row_count_monotone(img, y, x1, x2 - 1);
    }
}

proof fn lemma_sampled_monotone(img: &ColorImage, r1: int, r2: int)
    requires
        0 <= r1 <= r2,
    ensures
        transparent_in_sampled_rows(img, r1) <= transparent_in_sampled_rows(img, r2),
    decreases r2 - r1,
{
    if r1 < r2 {
        lemma_sampled_monotone(img, r1, r2 - 1);
    }
}

/// Whether the image looks like it has a transparent background: at least `threshold`
/// fully transparent pixels in five sampled rows (the first, the quarter, the middle,
/// the three-quarter and the last row). An empty image never does.
pub fn should_key_image(img: &ColorImage, threshold: usize) -> (b: bool)
    requires
        img.wf(),
    ensures
        b == (img.width > 0 && img.height > 0 && threshold <= transparent_in_sampled_rows(img, 5)),
{
    if img.width == 0 || img.height == 0 {
        return false;
    }
    let _len = img.pixels.len();
    let w = img.width;
    let h = img.height;
    assert(h * 4 <= w * h * 4) by (nonlinear_arith)
        requires w >= 1;
    let ys: [usize; 5] = [0, h / 4, h / 2, 3 * h / 4, h - 1];
    assert(forall|r: int| 0 <= r < 5 ==> ys@[r] == sample_rows(h as int)[r] && 0 <= #[trigger] ys@[r] < h);
    let mut n: usize = 0;
    let mut r: usize = 0;
    while r < 5
        invariant
            img.wf(),
            w == img.width,
            h == img.height,
            w > 0,
            h > 0,
            forall|r: int| 0 <= r < 5 ==> ys@[r] == sample_rows(h as int)[r] && 0 <= #[trigger] ys@[r] < h,
            r <= 5,
            n == transparent_in_sampled_rows(img, r as int),
            n < threshold || (r == 0 && n == 0),
        decreases 5 - r,
    {
        let y = ys[r];
        let mut x: usize = 0;
        while x < w
            invariant
                img.wf(),
                w == img.width,
                h == img.height,
                w > 0,
                y < h,
                y == sample_rows(h as int)[r as int],
                r < 5,
                x <= w,
                n == transparent_in_sampled_rows(img, r as int) + transparent_in_row(img, y as int, x as int),
                x > 0 ==> n < threshold,
                x == 0 ==> (n < threshold || (r == 0 && n == 0)),
            decreases w - x,
        {
            let p = img.get_pixel(x, y);
            if p.a == 0 {
                n = n + 1;
            }
            if n >= threshold {
                proof {
                    lemma_row_count_monotone(img, y as int, x + 1, w as int);
                    lemma_sampled_monotone(img, r + 1, 5);
                }
                return true;
            }
            x = x + 1;
        }
        r = r + 1;
    }
    false
}

/// Paints every fully transparent pixel (alpha 0) with `key`, alpha included; the other
/// pixels keep their color.
pub fn key_transparent_pixels(img: &mut ColorImage, key: Color)
    requires
        old(img).wf(),
    ensures
        final(img).wf(),
        final(img).width == old(img).width,
        final(img).height == old(img).height,
        forall|i: int|
            0 <= i < old(img).size() ==> #[trigger] final(img).pixel(i) == if old(img).pixel(i).a == 0 {
                key
            } else {
                old(img).pixel(i)
            },
{
    let _len = img.pixels.len();
    let n = img.width * img.height;
    let ghost orig = *img;
    let mut i: usize = 0;
    while i < n
        invariant
            img.wf(),
            img.width == orig.width,
            img.height == orig.height,
            n == orig.size(),
            i <= n,
            forall|j: int|
                0 <= j < i ==> #[trigger] img.pixel(j) == if orig.pixel(j).a == 0 {
                    key
                } else {
                    orig.pixel(j)
                },
            forall|j: int| i <= j < n ==> #[trigger] img.pixel(j) == orig.pixel(j),
        decreases n - i,
    {
        let p = img.get_pixel_at(i);
        if p.a == 0 {
            img.set_pixel_at(i, key);
        }
        i = i + 1;
    }
}

/// Whether keying paints the transparent pixels: the background looks transparent and
/// an unused key color exists.
pub open spec fn keying_applies(img: &ColorImage, threshold: usize) -> bool {
    img.width > 0 && img.height > 0 && threshold <= transparent_in_sampled_rows(img, 5)
        && has_unused_candidate(img)
}

/// Prepares an image for clustering: when it looks like it has a transparent background
/// (see `should_key_image`) and some key candidate is unused, its fully transparent
/// pixels are painted with that key color, which is returned; otherwise the image is left
/// as it is and transparent black (`Color::default()`) is returned.
pub fn key_image(img: &mut ColorImage, threshold: usize) -> (key: Color)
    requires
        old(img).wf(),
    ensures
        final(img).wf(),
        final(img).width == old(img).width,
        final(img).height == old(img).height,
        keying_applies(old(img), threshold) ==> {
            &&& key == first_unused_candidate(old(img))
            &&& !old(img).has_rgb(key)
            &&& forall|i: int|
                0 <= i < old(img).size() ==> #[trigger] final(img).pixel(i) == if old(img).pixel(i).a == 0 {
                    key
                } else {
                    old(img).pixel(i)
                }
            &&& forall|i: int| 0 <= i < old(img).size() ==> #[trigger] final(img).pixel(i).a != 0
            &&& forall|i: int|
                0 <= i < old(img).size() ==> (same_rgb(#[trigger] final(img).pixel(i), key) <==> old(img).pixel(i).a == 0)
        },
        !keying_applies(old(img), threshold) ==> key == (Color { r: 0, g: 0, b: 0, a: 0 }) && final(img).pixels@ == old(img).pixels@,
{
    if should_key_image(img, threshold) {
        match find_unused_color_in_image(img) {
            Ok(key) => {
                let ghost orig = *img;
                proof {
                    assert(key_candidates().contains(key));
                    assert forall|i: int| 0 <= i < orig.size() && orig.pixel(i).a != 0 implies !same_rgb(#[trigger] orig.pixel(i), key) by {
                        if same_rgb(orig.pixel(i), key) {
                            assert(orig.has_rgb(key));
                        }
                    }
                }
                key_transparent_pixels(img, key);
                key
            },
            Err(_) => Color::default(),
        }
    } else {
        Color::default()
    }
}

/// The colors of the first `x` pixels of row `y`.
pub open spec fn row_colors(img: &ColorImage, y: int, x: int) -> Seq<Color> {
    Seq::new(x as nat, |j: int| img.pixel(y * img.width + j))
}

/// The transparency count of a row is the number of its pixels whose alpha is exactly 0:
/// a pixel with any other alpha never counts, however translucent it is.
pub proof fn lemma_transparent_in_row_counts_alpha_zero(img: &ColorImage, y: int, x: int)
    requires
        0 <= x,
    ensures
        transparent_in_row(img, y, x) == row_colors(img, y, x).filter(|c: Color| c.a == 0).len(),
        transparent_in_row(img, y, x) <= x,
        (forall|j: int| 0 <= j < x ==> (#[trigger] img.pixel(y * img.width + j)).a != 0) ==> transparent_in_row(img, y, x) == 0,
        (forall|j: int| 0 <= j < x ==> (#[trigger] img.pixel(y * img.width + j)).a == 0) ==> transparent_in_row(img, y, x) == x,
    decreases x,
{
    let f = |c: Color| c.a == 0;
    if x == 0 {
        assert(row_colors(img, y, 0) =~= Seq::<Color>::empty());
        assert(row_colors(img, y, 0).filter(f) =~= Seq::<Color>::empty());
    } else {
        lemma_transparent_in_row_counts_alpha_zero(img, y, x - 1);
        assert(row_colors(img, y, x) =~= row_colors(img, y, x - 1).push(img.pixel(y * img.width + (x - 1))));
        row_colors(img, y, x - 1).lemma_filter_len_push(f, img.pixel(y * img.width + (x - 1)));
    }
}

proof fn lemma_opaque_row(img: &ColorImage, y: int)
    requires
        img.wf(),
        forall|i: int| 0 <= i < img.size() ==> (#[trigger] img.pixel(i)).a != 0,
        0 <= y < img.height,
    ensures
        transparent_in_row(img, y, img.width as int) == 0,
{
    let w = img.width as int;
    assert forall|j: int| 0 <= j < w implies (#[trigger] img.pixel(y * img.width + j)).a != 0 by {
        lemma_index_in_bounds(j, y, w, img.height as int);
    }
    lemma_transparent_in_row_counts_alpha_zero(img, y, w);
}

/// An image none of whose pixels has alpha 0 has no transparent pixel in its sampled
/// rows, so no positive threshold makes it look keyed.
pub proof fn lemma_no_alpha_zero_never_keyed(img: &ColorImage, threshold: usize)
    requires
        img.wf(),
        forall|i: int| 0 <= i < img.size() ==> (#[trigger] img.pixel(i)).a != 0,
        threshold > 0,
    ensures
        img.width > 0 && img.height > 0 ==> transparent_in_sampled_rows(img, 5) == 0,
        !(img.width > 0 && img.height > 0 && threshold <= transparent_in_sampled_rows(img, 5)),
{
    if img.width > 0 && img.height > 0 {
        let h = img.height as int;
        let ys = sample_rows(h);
        lemma_opaque_row(img, ys[0]);
        lemma_opaque_row(img, ys[1]);
        lemma_opaque_row(img, ys[2]);
        lemma_opaque_row(img, ys[3]);
        lemma_opaque_row(img, ys[4]);
        assert(transparent_in_sampled_rows(img, 0) == 0);
        assert(transparent_in_sampled_rows(img, 1) == 0);
        assert(transparent_in_sampled_rows(img, 2) == 0);
        assert(transparent_in_sampled_rows(img, 3) == 0);
        assert(transparent_in_sampled_rows(img, 4) == 0);
    }
}

} // verus!
