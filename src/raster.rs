use vstd::prelude::*;

verus! {

/// A row-major raster of `width * height` pixels of type `P`.
pub struct Raster<P> {
    pub width: u32,
    pub height: u32,
    pub pixels: Vec<P>,
}

/// A one-channel occupancy mask: 0 is empty, anything else is filled.
pub type RasterMask = Raster<u8>;

/// A luminance-and-alpha raster.
pub type GrayAlphaRaster = Raster<(u8, u8)>;

/// A red, green, blue and alpha raster.
pub type RgbaRaster = Raster<(u8, u8, u8, u8)>;

impl<P> Raster<P> {
    /// The pixel buffer holds exactly one entry per grid cell.
    pub open spec fn wf(&self) -> bool {
        self.pixels@.len() == self.width as int * self.height as int
    }

    pub open spec fn has_size(&self, size: (u32, u32)) -> bool {
        self.width == size.0 && self.height == size.1 && self.wf()
    }
}

/// Every mask pixel is either empty (0) or filled (255).
pub open spec fn binary(s: Seq<u8>) -> bool {
    forall|i: int| 0 <= i < s.len() ==> #[trigger] s[i] == 0 || s[i] == 255
}

/// Number of filled (non-zero) entries of a mask.
pub open spec fn filled_count(s: Seq<u8>) -> nat
    decreases s.len(),
{
    if s.len() == 0 {
        0
    } else {
        filled_count(s.drop_last()) + if s.last() != 0 { 1nat } else { 0nat }
    }
}

/// A mask with nothing filled has a filled count of zero.
pub proof fn lemma_filled_count_empty(s: Seq<u8>)
    requires
        forall|i: int| 0 <= i < s.len() ==> s[i] == 0,
    ensures
        filled_count(s) == 0,
    decreases s.len(),
{
    if s.len() > 0 {
        lemma_filled_count_empty(s.drop_last());
    }
}

/// Filling one empty entry raises the filled count by one.
pub proof fn lemma_filled_count_fill(s: Seq<u8>, i: int, v: u8)
    requires
        0 <= i < s.len(),
        s[i] == 0,
        v != 0,
    ensures
        filled_count(s.update(i, v)) == filled_count(s) + 1,
    decreases s.len(),
{
    let t = s.update(i, v);
    if i == s.len() - 1 {
        assert(t.drop_last() =~= s.drop_last());
    } else {
        lemma_filled_count_fill(s.drop_last(), i, v);
        assert(t.drop_last() =~= s.drop_last().update(i, v));
    }
}

/// Number of indices below `n` at which `f` holds.
pub open spec fn count_where(n: nat, f: spec_fn(int) -> bool) -> nat
    decreases n,
{
    if n == 0 {
        0
    } else {
        count_where((n - 1) as nat, f) + if f(n - 1) { 1nat } else { 0nat }
    }
}

/// Where `f` implies `g` or `h`, `f` holds no more often than `g` and `h` together.
pub proof fn lemma_count_where_split(n: nat, f: spec_fn(int) -> bool, g: spec_fn(int) -> bool, h: spec_fn(int) -> bool)
    requires
        forall|i: int| 0 <= i < n && #[trigger] f(i) ==> g(i) || h(i),
    ensures
        count_where(n, f) <= count_where(n, g) + count_where(n, h),
    decreases n,
{
    if n > 0 {
        lemma_count_where_split((n - 1) as nat, f, g, h);
    }
}

/// A predicate that never holds counts zero.
pub proof fn lemma_count_where_none(n: nat, f: spec_fn(int) -> bool)
    requires
        forall|i: int| 0 <= i < n ==> !#[trigger] f(i),
    ensures
        count_where(n, f) == 0,
    decreases n,
{
    if n > 0 {
        lemma_count_where_none((n - 1) as nat, f);
    }
}

/// The filled count of a mask counts the indices of its non-zero entries.
pub proof fn lemma_filled_count_where(s: Seq<u8>)
    ensures
        filled_count(s) == count_where(s.len(), |i: int| s[i] != 0),
    decreases s.len(),
{
    if s.len() > 0 {
        let t = s.drop_last();
        lemma_filled_count_where(t);
        lemma_count_where_same((s.len() - 1) as nat, |i: int| t[i] != 0, |i: int| s[i] != 0);
    }
}

/// Predicates that agree below `n` count the same.
pub proof fn lemma_count_where_same(n: nat, f: spec_fn(int) -> bool, g: spec_fn(int) -> bool)
    requires
        forall|i: int| 0 <= i < n ==> #[trigger] f(i) == g(i),
    ensures
        count_where(n, f) == count_where(n, g),
    decreases n,
{
    if n > 0 {
        lemma_count_where_same((n - 1) as nat, f, g);
    }
}

/// Builds a `width * height` raster with every pixel set to `value`.
pub fn filled_raster<P: Copy>(width: u32, height: u32, value: P) -> (r: Raster<P>)
    requires
        width as int * height as int <= usize::MAX,
    ensures
        r.width == width,
        r.height == height,
        r.wf(),
        forall|i: int| 0 <= i < r.pixels@.len() ==> r.pixels@[i] == value,
{
    let n: usize = width as usize * height as usize;
    let mut pixels: Vec<P> = Vec::with_capacity(n);
    let mut i: usize = 0;
    while i < n
        invariant
            n == width as int * height as int,
            i <= n,
            pixels@.len() == i,
            forall|j: int| 0 <= j < i ==> pixels@[j] == value,
        decreases n - i,
    {
        pixels.push(value);
        i += 1;
    }
    Raster { width, height, pixels }
}

} // verus!
