//! A generated silhouette: its bands and the rasters composited from them.
use vstd::prelude::*;
use crate::raster::{binary, count_where, filled_count, lemma_count_where_none, lemma_count_where_split, lemma_filled_count_where, filled_raster, GrayAlphaRaster, Raster, RasterMask, RgbaRaster};

verus! {

/// One band of the growth: the mask of the pixels filled in one epoch and the
/// intensity that shades them.
pub type Band = (RasterMask, u8);

/// The bands of a growth, oldest first, and the rasters combined from them.
/// A combined raster, once present, is kept until replaced explicitly.
pub struct GeneratedAsteroid {
    pub layers: Vec<Band>,
    pub colored_img: Option<RgbaRaster>,
    pub combined_img: Option<GrayAlphaRaster>,
    pub layer_size: (u32, u32),
}

/// The bands as pixel sequences with their intensities, and the combined rasters.
pub struct AsteroidView {
    pub layers: Seq<(Seq<u8>, u8)>,
    pub gray: Option<Seq<(u8, u8)>>,
    pub color: Option<Seq<(u8, u8, u8, u8)>>,
    pub size: (u32, u32),
}

impl View for GeneratedAsteroid {
    type V = AsteroidView;

    open spec fn view(&self) -> AsteroidView {
        AsteroidView {
            layers: self.layers@.map_values(|b: Band| (b.0.pixels@, b.1)),
            gray: match self.combined_img {
                Some(g) => Some(g.pixels@),
                None => None,
            },
            color: match self.colored_img {
                Some(c) => Some(c.pixels@),
                None => None,
            },
            size: self.layer_size,
        }
    }
}

/// Number of pixels of a raster of the given size.
pub open spec fn pixel_count(size: (u32, u32)) -> int {
    size.0 as int * size.1 as int
}

impl GeneratedAsteroid {
    /// Every raster has the size of the canvas, whose width and height sum
    /// within a `u32`.
    pub open spec fn wf(&self) -> bool {
        &&& pixel_count(self.layer_size) <= usize::MAX
        &&& self.layer_size.0 as int + self.layer_size.1 as int <= u32::MAX
        &&& forall|j: int|
            0 <= j < self.layers@.len() ==> (#[trigger] self.layers@[j]).0.has_size(self.layer_size)
        &&& (self.combined_img matches Some(g) ==> g.has_size(self.layer_size))
        &&& (self.colored_img matches Some(c) ==> c.has_size(self.layer_size))
    }

    /// Combines the bands into the grayscale raster and caches it, replacing
    /// any earlier one. A pixel takes the intensity of the earliest band that
    /// fills it, opaque; pixels of no band are transparent black.
    pub fn combine_gray(self) -> (r: Self)
        requires
            self.wf(),
        ensures
            r.wf(),
            r@ == with_gray(self@),
    {
        let ghost lv = self@.layers;
        let n: usize = self.layer_size.0 as usize * self.layer_size.1 as usize;
        let mut out = filled_raster(self.layer_size.0, self.layer_size.1, (0u8, 0u8));
        let mut j: usize = self.layers.len();
        while j > 0
            invariant
                self.wf(),
                lv == self@.layers,
                n == pixel_count(self.layer_size),
                j <= self.layers@.len(),
                out.has_size(self.layer_size),
                forall|q: int| 0 <= q < n ==> out.pixels@[q] == gray_at(lv.subrange(j as int, lv.len() as int), q),
            decreases j,
        {
            j = j - 1;
            let col = self.layers[j].1;
            proof {
                assert(lv.subrange(j as int, lv.len() as int).drop_first() =~= lv.subrange(j + 1, lv.len() as int));
                assert(self.layers@[j as int].0.has_size(self.layer_size));
            }
            let mut i: usize = 0;
            while i < n
                invariant
                    self.wf(),
                    lv == self@.layers,
                    n == pixel_count(self.layer_size),
                    j < self.layers@.len(),
                    i <= n,
                    col == self.layers@[j as int].1,
                    self.layers@[j as int].0.pixels@.len() == n,
                    lv.subrange(j as int, lv.len() as int).drop_first() == lv.subrange(j + 1, lv.len() as int),
                    out.has_size(self.layer_size),
                    forall|q: int| 0 <= q < i ==> out.pixels@[q] == gray_at(lv.subrange(j as int, lv.len() as int), q),
                    forall|q: int| i <= q < n ==> out.pixels@[q] == gray_at(lv.subrange(j + 1, lv.len() as int), q),
                decreases n - i,
            {
                if self.layers[j].0.pixels[i] != 0 {
                    out.pixels.set(i, (col, 255u8));
                }
                i = i + 1;
            }
        }
        let mut r = self;
        r.combined_img = Some(out);
        proof {
            assert(lv.subrange(0, lv.len() as int) =~= lv);
            assert(r@.gray.unwrap() =~= gray_composite(self@));
            assert(r@.layers =~= with_gray(self@).layers);
        }
        r
    }

    /// Combines the bands into the colour raster and caches it, replacing any
    /// earlier one. A pixel of the earliest band that fills it is opaque, each
    /// channel `hue * intensity / 255` rounded down; `None` is white.
    pub fn combine_colored(self, hue: Option<[u8; 3]>) -> (r: Self)
        requires
            self.wf(),
        ensures
            r.wf(),
            r@ == with_color(self@, hue_or_white(hue)),
    {
        let h: (u8, u8, u8) = match hue {
            Some(c) => (c[0], c[1], c[2]),
            None => (255u8, 255u8, 255u8),
        };
        let ghost lv = self@.layers;
        let n: usize = self.layer_size.0 as usize * self.layer_size.1 as usize;
        let mut out = filled_raster(self.layer_size.0, self.layer_size.1, (0u8, 0u8, 0u8, 0u8));
        let mut j: usize = self.layers.len();
        while j > 0
            invariant
                self.wf(),
                lv == self@.layers,
                h == hue_or_white(hue),
                n == pixel_count(self.layer_size),
                j <= self.layers@.len(),
                out.has_size(self.layer_size),
                forall|q: int| 0 <= q < n ==> out.pixels@[q] == color_at(lv.subrange(j as int, lv.len() as int), h, q),
            decreases j,
        {
            j = j - 1;
            let col = self.layers[j].1;
            let px = (shade(col, h.0), shade(col, h.1), shade(col, h.2), 255u8);
            proof {
                assert(lv.subrange(j as int, lv.len() as int).drop_first() =~= lv.subrange(j + 1, lv.len() as int));
                assert(self.layers@[j as int].0.has_size(self.layer_size));
            }
            let mut i: usize = 0;
            while i < n
                invariant
                    self.wf(),
                    lv == self@.layers,
                    n == pixel_count(self.layer_size),
                    j < self.layers@.len(),
                    i <= n,
                    px == (shade_of(col, h.0), shade_of(col, h.1), shade_of(col, h.2), 255u8),
                    col == self.layers@[j as int].1,
                    self.layers@[j as int].0.pixels@.len() == n,
                    lv.subrange(j as int, lv.len() as int).drop_first() == lv.subrange(j + 1, lv.len() as int),
                    out.has_size(self.layer_size),
                    forall|q: int| 0 <= q < i ==> out.pixels@[q] == color_at(lv.subrange(j as int, lv.len() as int), h, q),
                    forall|q: int| i <= q < n ==> out.pixels@[q] == color_at(lv.subrange(j + 1, lv.len() as int), h, q),
                decreases n - i,
            {
                if self.layers[j].0.pixels[i] != 0 {
                    out.pixels.set(i, px);
                }
                i = i + 1;
            }
        }
        let mut r = self;
        r.colored_img = Some(out);
        proof {
            assert(lv.subrange(0, lv.len() as int) =~= lv);
            assert(r@.color.unwrap() =~= color_composite(self@, h));
            assert(r@.layers =~= with_color(self@, h).layers);
        }
        r
    }

    /// Dilates every band mask by `radius` in the L-infinity norm, leaving
    /// intensities, the canvas size and any cached combination as they are.
    /// Bands may overlap afterwards; a combination then shows the earliest.
    pub fn smoothen_all(self, radius: u8) -> (r: Self)
        requires
            self.wf(),
        ensures
            r.wf(),
            r@.size == self@.size,
            r@.gray == self@.gray,
            r@.color == self@.color,
            r@.layers.len() == self@.layers.len(),
            forall|j: int|
                0 <= j < r@.layers.len() ==> #[trigger] r@.layers[j] == (
                    dilated(self@.layers[j].0, self.layer_size.0 as nat, self.layer_size.1 as nat, radius),
                    self@.layers[j].1,
                ),
            forall|j: int| 0 <= j < r@.layers.len() ==> binary(#[trigger] r@.layers[j].0),
            forall|j: int, q: int|
                0 <= j < r@.layers.len() && 0 <= q < self@.layers[j].0.len() && #[trigger] self@.layers[j].0[q]
                    != 0 ==> r@.layers[j].0[q] == 255,
            radius == 0 ==> forall|j: int|
                0 <= j < r@.layers.len() && binary(#[trigger] self@.layers[j].0) ==> r@.layers[j] == self@.layers[j],
    {
        let (w, h) = self.layer_size;
        let mut layers: Vec<Band> = Vec::new();
        let mut j: usize = 0;
        while j < self.layers.len()
            invariant
                self.wf(),
                (w, h) == self.layer_size,
                j <= self.layers@.len(),
                layers@.len() == j,
                forall|q: int| 0 <= q < j ==> (#[trigger] layers@[q]).0.has_size(self.layer_size),
                forall|q: int|
                    0 <= q < j ==> #[trigger] layers@[q].0.pixels@ == dilated(
                        self@.layers[q].0,
                        w as nat,
                        h as nat,
                        radius,
                    ) && layers@[q].1 == self@.layers[q].1,
            decreases self.layers@.len() - j,
        {
            proof {
                assert(self.layers@[j as int].0.has_size(self.layer_size));
            }
            let pixels = dilate_mask(&self.layers[j].0.pixels, w, h, radius);
            layers.push((Raster { width: w, height: h, pixels }, self.layers[j].1));
            j = j + 1;
        }
        let mut r = self;
        r.layers = layers;
        proof {
            assert forall|q: int| 0 <= q < r@.layers.len() implies #[trigger] r@.layers[q] == (
                dilated(self@.layers[q].0, w as nat, h as nat, radius),
                self@.layers[q].1,
            ) by {
                assert(layers@[q].0.pixels@ == dilated(self@.layers[q].0, w as nat, h as nat, radius));
                assert(self.layers@[q].0.has_size(self.layer_size));
            }
            assert forall|q: int| 0 <= q < r@.layers.len() implies binary(#[trigger] r@.layers[q].0) && (forall|p: int|
                0 <= p < self@.layers[q].0.len() && self@.layers[q].0[p] != 0 ==> r@.layers[q].0[p] == 255) && (
            radius == 0 && binary(self@.layers[q].0) ==> r@.layers[q] == self@.layers[q]) by {
                assert(self.layers@[q].0.has_size(self.layer_size));
                lemma_dilated_keeps(self@.layers[q].0, w as nat, h as nat, radius);
            }
        }
        r
    }

    /// Makes sure the grayscale raster is present: combines it only when absent.
    pub fn ensure_gray(self) -> (r: Self)
        requires
            self.wf(),
        ensures
            r.wf(),
            r@ == (if self@.gray is Some { self@ } else { with_gray(self@) }),
    {
        if self.combined_img.is_none() {
            self.combine_gray()
        } else {
            self
        }
    }

    /// Makes sure the colour raster is present: combines it in white only when absent.
    pub fn ensure_colored(self) -> (r: Self)
        requires
            self.wf(),
        ensures
            r.wf(),
            r@ == (if self@.color is Some { self@ } else { with_color(self@, (255u8, 255u8, 255u8)) }),
    {
        if self.colored_img.is_none() {
            self.combine_colored(None)
        } else {
            self
        }
    }

    /// The visibility mask of band `j` alone: opaque white where the band is
    /// filled, transparent black elsewhere.
    pub fn layer_image(&self, j: usize) -> (m: GrayAlphaRaster)
        requires
            self.wf(),
            j < self.layers@.len(),
        ensures
            m.has_size(self.layer_size),
            forall|q: int|
                0 <= q < m.pixels@.len() ==> m.pixels@[q] == (if self@.layers[j as int].0[q] != 0 {
                    (255u8, 255u8)
                } else {
                    (0u8, 0u8)
                }),
    {
        let n: usize = self.layer_size.0 as usize * self.layer_size.1 as usize;
        proof {
            assert(self.layers@[j as int].0.has_size(self.layer_size));
        }
        let mut m = filled_raster(self.layer_size.0, self.layer_size.1, (0u8, 0u8));
        let mut i: usize = 0;
        while i < n
            invariant
                self.wf(),
                n == pixel_count(self.layer_size),
                j < self.layers@.len(),
                self.layers@[j as int].0.pixels@.len() == n,
                i <= n,
                m.has_size(self.layer_size),
                forall|q: int|
                    0 <= q < i ==> m.pixels@[q] == (if self@.layers[j as int].0[q] != 0 {
                        (255u8, 255u8)
                    } else {
                        (0u8, 0u8)
                    }),
                forall|q: int| i <= q < n ==> m.pixels@[q] == (0u8, 0u8),
            decreases n - i,
        {
            if self.layers[j].0.pixels[i] != 0 {
                m.pixels.set(i, (255u8, 255u8));
            }
            i = i + 1;
        }
        m
    }
}

/// Pixel `i` of the grayscale combination: the intensity of the earliest band
/// that fills it, opaque, or transparent black when no band does.
pub open spec fn gray_at(layers: Seq<(Seq<u8>, u8)>, i: int) -> (u8, u8)
    decreases layers.len(),
{
    if layers.len() == 0 {
        (0u8, 0u8)
    } else if layers[0].0[i] != 0 {
        (layers[0].1, 255u8)
    } else {
        gray_at(layers.drop_first(), i)
    }
}

/// The grayscale combination of all the bands.
pub open spec fn gray_composite(v: AsteroidView) -> Seq<(u8, u8)> {
    Seq::new(pixel_count(v.size) as nat, |i: int| gray_at(v.layers, i))
}

/// The state after combining the grayscale raster.
pub open spec fn with_gray(v: AsteroidView) -> AsteroidView {
    AsteroidView { layers: v.layers, gray: Some(gray_composite(v)), color: v.color, size: v.size }
}

/// Some filled pixel of the `width`-wide mask lies within L-infinity distance
/// `radius` of pixel `q`.
pub open spec fn near_filled(pixels: Seq<u8>, width: nat, q: int, radius: u8) -> bool {
    exists|p: int|
        0 <= p < pixels.len() && #[trigger] pixels[p] != 0 && -radius <= p % (width as int) - q % (width as int)
            <= radius && -radius <= p / (width as int) - q / (width as int) <= radius
}

/// The dilation of a `width * height` mask by `radius` in the L-infinity norm,
/// as imageproc computes it: a pixel becomes 255 when a filled pixel lies
/// within `radius`, or when `radius` reaches the distance cap
/// `min(width + height, 255)` that stands for "no filled pixel"; else 0.
pub open spec fn dilated(pixels: Seq<u8>, width: nat, height: nat, radius: u8) -> Seq<u8> {
    let cap = if width + height < 255 { width + height } else { 255 };
    Seq::new(
        pixels.len(),
        |q: int|
            if near_filled(pixels, width, q, radius) || cap <= radius {
                255u8
            } else {
                0u8
            },
    )
}

/// A dilated mask is binary and keeps every filled pixel; by radius 0 it
/// leaves a binary mask as it is.
pub proof fn lemma_dilated_keeps(pixels: Seq<u8>, width: nat, height: nat, radius: u8)
    requires
        pixels.len() == width * height,
    ensures
        binary(dilated(pixels, width, height, radius)),
        dilated(pixels, width, height, radius).len() == pixels.len(),
        forall|q: int|
            0 <= q < pixels.len() && pixels[q] != 0 ==> #[trigger] dilated(pixels, width, height, radius)[q] == 255,
        radius == 0 && binary(pixels) ==> dilated(pixels, width, height, radius) == pixels,
{
    let d = dilated(pixels, width, height, radius);
    assert forall|q: int| 0 <= q < pixels.len() && pixels[q] != 0 implies #[trigger] d[q] == 255 by {
        assert(near_filled(pixels, width, q, radius));
    }
    if radius == 0 && binary(pixels) {
        assert forall|q: int| 0 <= q < pixels.len() implies #[trigger] d[q] == pixels[q] by {
            if pixels[q] == 0 {
                assert(width > 0) by (nonlinear_arith)
                    requires
                        0 <= q < pixels.len(),
                        pixels.len() == width * height,
                ;
                if near_filled(pixels, width, q, radius) {
                    let p = choose|p: int|
                        0 <= p < pixels.len() && #[trigger] pixels[p] != 0 && -radius <= p % (width as int) - q
                            % (width as int) <= radius && -radius <= p / (width as int) - q / (width as int) <= radius;
                    vstd::arithmetic::div_mod::lemma_fundamental_div_mod(p, width as int);
                    vstd::arithmetic::div_mod::lemma_fundamental_div_mod(q, width as int);
                    assert(p == q);
                }
            }
        }
        assert(d =~= pixels);
    }
}

/// Relies on imageproc's `morphology::dilate_mut` with the L-infinity norm:
/// its distance transform gives each pixel the chessboard distance to the
/// nearest non-zero pixel, capped at `min(width + height, 255)`, and a pixel
/// then becomes 255 when that distance is at most `radius`, else 0.
#[verifier::external_body]
fn dilate_mask(pixels: &Vec<u8>, width: u32, height: u32, radius: u8) -> (r: Vec<u8>)
    requires
        pixels@.len() == width as int * height as int,
        width as int + height as int <= u32::MAX,
    ensures
        r@ == dilated(pixels@, width as nat, height as nat, radius),
{
    let mut img = image::GrayImage::from_raw(width, height, pixels.clone()).unwrap();
    imageproc::morphology::dilate_mut(&mut img, imageproc::distance_transform::Norm::LInf, radius);
    img.into_raw()
}

/// One channel `h` shaded by the intensity `c`: `c * h / 255`, rounded down.
pub open spec fn shade_of(c: u8, h: u8) -> u8 {
    (c as int * h as int / 255) as u8
}

/// Shades the channel `h` by the intensity `c`.
pub fn shade(c: u8, h: u8) -> (s: u8)
    ensures
        s == shade_of(c, h),
        s as int == c as int * h as int / 255,
{
    assert(0 <= c as int * h as int <= 255 * 255) by (nonlinear_arith)
        requires
            0 <= c <= 255,
            0 <= h <= 255,
    ;
    ((c as u32 * h as u32) / 255) as u8
}

/// The hue a colour combination uses: the given one, or white.
pub open spec fn hue_or_white(hue: Option<[u8; 3]>) -> (u8, u8, u8) {
    match hue {
        Some(c) => (c[0], c[1], c[2]),
        None => (255u8, 255u8, 255u8),
    }
}

/// Pixel `i` of the colour combination in hue `h`.
pub open spec fn color_at(layers: Seq<(Seq<u8>, u8)>, h: (u8, u8, u8), i: int) -> (u8, u8, u8, u8)
    decreases layers.len(),
{
    if layers.len() == 0 {
        (0u8, 0u8, 0u8, 0u8)
    } else if layers[0].0[i] != 0 {
        let c = layers[0].1;
        (shade_of(c, h.0), shade_of(c, h.1), shade_of(c, h.2), 255u8)
    } else {
        color_at(layers.drop_first(), h, i)
    }
}

/// The colour combination of all the bands in hue `h`.
pub open spec fn color_composite(v: AsteroidView, h: (u8, u8, u8)) -> Seq<(u8, u8, u8, u8)> {
    Seq::new(pixel_count(v.size) as nat, |i: int| color_at(v.layers, h, i))
}

/// The state after combining the colour raster in hue `h`.
pub open spec fn with_color(v: AsteroidView, h: (u8, u8, u8)) -> AsteroidView {
    AsteroidView { layers: v.layers, gray: v.gray, color: Some(color_composite(v, h)), size: v.size }
}

/// Number of opaque pixels of a grayscale raster.
pub open spec fn opaque_count(s: Seq<(u8, u8)>) -> nat {
    count_where(s.len(), |i: int| s[i].1 != 0)
}

/// Pixels filled over all the band masks of a view.
pub open spec fn view_filled(layers: Seq<(Seq<u8>, u8)>) -> nat
    decreases layers.len(),
{
    if layers.len() == 0 {
        0
    } else {
        view_filled(layers.drop_last()) + filled_count(layers.last().0)
    }
}

/// A pixel opaque in the combination of the bands is opaque in the
/// combination of all but the last, or filled in the last.
proof fn lemma_gray_opaque_last(layers: Seq<(Seq<u8>, u8)>, i: int)
    requires
        gray_at(layers, i).1 != 0,
    ensures
        layers.len() > 0,
        gray_at(layers.drop_last(), i).1 != 0 || layers.last().0[i] != 0,
    decreases layers.len(),
{
    if layers[0].0[i] != 0 {
        if layers.len() > 1 {
            assert(layers.drop_last()[0] == layers[0]);
        }
    } else {
        let rest = layers.drop_first();
        lemma_gray_opaque_last(rest, i);
        assert(rest.last() == layers.last());
        assert(rest.drop_last() =~= layers.drop_last().drop_first());
        assert(layers.drop_last()[0] == layers[0]);
    }
}

/// Counting law of the grayscale combination: it has no more opaque pixels
/// than the band masks have filled pixels together.
pub proof fn lemma_gray_opaque_within_filled(v: AsteroidView)
    requires
        forall|j: int| 0 <= j < v.layers.len() ==> (#[trigger] v.layers[j]).0.len() == pixel_count(v.size),
    ensures
        opaque_count(gray_composite(v)) <= view_filled(v.layers),
    decreases v.layers.len(),
{
    let n = pixel_count(v.size) as nat;
    let gc = gray_composite(v);
    if v.layers.len() == 0 {
        lemma_count_where_none(n, |i: int| gc[i].1 != 0);
    } else {
        let w = AsteroidView { layers: v.layers.drop_last(), gray: v.gray, color: v.color, size: v.size };
        lemma_gray_opaque_within_filled(w);
        let last = v.layers.last().0;
        let gw = gray_composite(w);
        assert forall|i: int| 0 <= i < n && #[trigger] gc[i].1 != 0 implies gw[i].1 != 0 || last[i] != 0 by {
            lemma_gray_opaque_last(v.layers, i);
        }
        lemma_count_where_split(n, |i: int| gc[i].1 != 0, |i: int| gw[i].1 != 0, |i: int| last[i] != 0);
        lemma_filled_count_where(last);
    }
}

/// Combining the grayscale raster a second time, with the bands unchanged,
/// gives the very same state as combining it once: the combination is
/// computed from the bands alone and leaves them as they are.
pub proof fn lemma_combine_gray_idempotent(v: AsteroidView)
    ensures
        with_gray(with_gray(v)) == with_gray(v),
{
    assert(gray_composite(with_gray(v)) =~= gray_composite(v));
}

} // verus!
