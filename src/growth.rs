//! The stochastic region growth that produces the bands of a silhouette.
use vstd::prelude::*;
use crate::raster::{binary, filled_count, lemma_filled_count_empty, lemma_filled_count_fill, Raster, filled_raster};
use crate::bias::{accepts, axis_int, canvas_side, is_canvas_side, push_accepted, ACCEPT_SCALE};
use crate::asteroid::{gray_composite, lemma_gray_opaque_within_filled, opaque_count, pixel_count, view_filled, Band, GeneratedAsteroid};
use crate::random::draw_below;
use rand::rngs::StdRng;

verus! {

/// Intensity of the band with index `k` out of `band_count`.
pub open spec fn band_intensity(k: int, band_count: int) -> int {
    255 - k * (255int / band_count)
}

/// The `k`-th scheduled band boundary: a band closes once more pixels than this were filled.
pub open spec fn band_boundary(k: int, area: int, band_count: int) -> int {
    k * area / band_count
}

/// Pixels filled over all the masks of a band sequence.
pub open spec fn total_filled(layers: Seq<Band>) -> nat
    decreases layers.len(),
{
    if layers.len() == 0 {
        0
    } else {
        total_filled(layers.drop_last()) + filled_count(layers.last().0.pixels@)
    }
}

/// With at least one pixel per band, the first `closed` bands close on
/// schedule: bands `0..=j` hold exactly one pixel more than boundary `j + 1`.
pub open spec fn closed_on_schedule(layers: Seq<Band>, closed: int, area: int, band_count: int) -> bool {
    band_count <= area ==> forall|j: int|
        0 <= j < closed ==> total_filled(#[trigger] layers.subrange(0, j + 1)) == band_boundary(j + 1, area, band_count)
            + 1
}

/// No pixel is filled in two bands.
pub open spec fn bands_disjoint(layers: Seq<Band>) -> bool {
    forall|j1: int, j2: int, i: int|
        0 <= j1 < layers.len() && 0 <= j2 < layers.len() && j1 != j2 && 0 <= i
            < layers[j1].0.pixels@.len() && 0 <= i < layers[j2].0.pixels@.len()
            && #[trigger] layers[j1].0.pixels@[i] != 0 ==> #[trigger] layers[j2].0.pixels@[i] == 0
}

/// Doubled offset of a cell from the centre of a canvas of side `side`.
pub open spec fn offset(cell: (u32, u32), side: u32) -> (int, int) {
    (2 * cell.0 - side, 2 * cell.1 - side)
}

/// Row-major index of a cell on a canvas of side `side`.
pub open spec fn cell_index(cell: (u32, u32), side: u32) -> int {
    cell.1 * side + cell.0
}

/// The state of a growth in progress: the canvas of filled pixels, the band
/// being filled, the bands closed so far and the frontier of candidate cells.
pub struct Growth {
    pub side: u32,
    pub area: u32,
    pub band_count: usize,
    pub canvas: Vec<u8>,
    pub band: Vec<u8>,
    pub band_color: u8,
    pub layers: Vec<Band>,
    pub frontier: Vec<(u32, u32)>,
    pub counter: u32,
    pub next_k: usize,
}

impl Growth {
    /// Masks have the canvas size and are binary; closed bands carry their
    /// intensities, are disjoint, lie on the canvas and apart from the open
    /// band; the filled count over all of them is the counter, within the area;
    /// every candidate lies on the canvas.
    pub open spec fn wf(&self) -> bool {
        let n = self.side as int * self.side as int;
        &&& self.area >= 1
        &&& self.band_count >= 1
        &&& 1 <= self.side <= 103682
        &&& n <= usize::MAX
        &&& self.canvas@.len() == n
        &&& self.band@.len() == n
        &&& forall|j: int|
            0 <= j < self.layers@.len() ==> (#[trigger] self.layers@[j]).0.has_size(
                (self.side, self.side),
            ) && self.layers@[j].1 == band_intensity(j, self.band_count as int)
                && binary(self.layers@[j].0.pixels@)
        &&& self.band_color == band_intensity(self.layers@.len() as int, self.band_count as int)
        &&& self.next_k == self.layers@.len() + 1
        &&& self.next_k <= self.band_count
        &&& self.counter <= self.area
        &&& closed_on_schedule(self.layers@, self.layers@.len() as int, self.area as int, self.band_count as int)
        &&& (self.band_count <= self.area ==> self.counter <= band_boundary(
            self.next_k as int,
            self.area as int,
            self.band_count as int,
        ))
        &&& total_filled(self.layers@) + filled_count(self.band@) == self.counter
        &&& binary(self.canvas@)
        &&& binary(self.band@)
        &&& forall|i: int| 0 <= i < n && #[trigger] self.band@[i] != 0 ==> self.canvas@[i] != 0
        &&& forall|j: int, i: int|
            0 <= j < self.layers@.len() && 0 <= i < n && #[trigger] self.layers@[j].0.pixels@[i]
                != 0 ==> self.canvas@[i] != 0 && self.band@[i] == 0
        &&& bands_disjoint(self.layers@)
        &&& forall|k: int|
            0 <= k < self.frontier@.len() ==> (#[trigger] self.frontier@[k]).0 < self.side
                && self.frontier@[k].1 < self.side
    }

    /// A growth with nothing filled yet and the canvas centre as its only candidate.
    pub fn new(area: u32, band_count: usize) -> (g: Growth)
        requires
            area >= 1,
            band_count >= 1,
            8 * area as int <= usize::MAX,
        ensures
            g.wf(),
            g.area == area,
            g.band_count == band_count,
            is_canvas_side(area as int, g.side as int),
            g.counter == 0,
            g.layers@.len() == 0,
            g.band_color == 255,
            g.frontier@ == seq![(g.side / 2, g.side / 2)],
            forall|i: int| 0 <= i < g.canvas@.len() ==> g.canvas@[i] == 0,
            forall|i: int| 0 <= i < g.band@.len() ==> g.band@[i] == 0,
    {
        let side = canvas_side(area);
        assert(side as int * side as int <= 7 * area as int) by (nonlinear_arith)
            requires
                2 * side * side >= 5 * area,
                side == 0 || 2 * (side - 1) * (side - 1) < 5 * area,
                area >= 1,
        ;
        let canvas = filled_raster(side, side, 0u8).pixels;
        let band = filled_raster(side, side, 0u8).pixels;
        proof {
            lemma_filled_count_empty(band@);
            assert(side > 0) by (nonlinear_arith)
                requires
                    2 * side * side >= 5 * area,
                    area >= 1,
            ;
        }
        let mut frontier: Vec<(u32, u32)> = Vec::new();
        frontier.push((side / 2, side / 2));
        let g = Growth {
            side,
            area,
            band_count,
            canvas,
            band,
            band_color: 255,
            layers: Vec::new(),
            frontier,
            counter: 0,
            next_k: 1,
        };
        proof {
            assert(total_filled(g.layers@) == 0);
            assert(g.frontier@ =~= seq![(side / 2, side / 2)]);
        }
        g
    }

    /// Everything but the frontier is as in `o`.
    pub open spec fn same_but_frontier(&self, o: &Growth) -> bool {
        &&& self.side == o.side
        &&& self.area == o.area
        &&& self.band_count == o.band_count
        &&& self.canvas@ == o.canvas@
        &&& self.band@ == o.band@
        &&& self.band_color == o.band_color
        &&& self.layers@ == o.layers@
        &&& self.counter == o.counter
        &&& self.next_k == o.next_k
    }

    /// Index of the canvas centre, where growth starts.
    pub open spec fn seed_index(&self) -> int {
        cell_index((self.side / 2, self.side / 2), self.side)
    }

    /// The centre is filled in the first band, closed or still open.
    pub open spec fn holds_seed(&self) -> bool {
        if self.layers@.len() == 0 {
            self.band@[self.seed_index()] == 255
        } else {
            self.layers@[0].0.pixels@[self.seed_index()] == 255
        }
    }

    /// Whether the cell is filled on the canvas.
    pub open spec fn is_filled(&self, cell: (u32, u32)) -> bool {
        self.canvas@[cell_index(cell, self.side)] != 0
    }

    /// Filling one more pixel passes the next band boundary.
    pub open spec fn band_closes(&self) -> bool {
        self.counter + 1 > band_boundary(self.next_k as int, self.area as int, self.band_count as int)
    }

    /// The boundary after the next one lies beyond the area: growth stops.
    pub open spec fn growth_ends(&self) -> bool {
        band_boundary(self.next_k + 1, self.area as int, self.band_count as int) > self.area
    }

    /// Removes the candidate at `idx` from the frontier, the last candidate
    /// taking its place, and returns it if its cell is still empty.
    pub fn pick(&mut self, idx: usize) -> (c: Option<(u32, u32)>)
        requires
            old(self).wf(),
            idx < old(self).frontier@.len(),
        ensures
            final(self).wf(),
            final(self).same_but_frontier(old(self)),
            final(self).frontier@ == old(self).frontier@.update(
                idx as int,
                old(self).frontier@.last(),
            ).drop_last(),
            c == (if old(self).is_filled(old(self).frontier@[idx as int]) {
                None
            } else {
                Some(old(self).frontier@[idx as int])
            }),
    {
        let cell = self.frontier.swap_remove(idx);
        proof {
            assert(cell.0 < self.side && cell.1 < self.side);
            assert(cell_index(cell, self.side) < self.side as int * self.side as int) by (nonlinear_arith)
                requires
                    cell.0 < self.side,
                    cell.1 < self.side,
            ;
            assert forall|k: int| 0 <= k < self.frontier@.len() implies (#[trigger] self.frontier@[k]).0
                < self.side && self.frontier@[k].1 < self.side by {
                if k == idx {
                } else {
                    assert(self.frontier@[k] == old(self).frontier@[k]);
                }
            }
        }
        let i: usize = cell.1 as usize * self.side as usize + cell.0 as usize;
        if self.canvas[i] == 0 {
            Some(cell)
        } else {
            None
        }
    }

    /// Queues `cell`, a neighbour of `parent`, when it is empty and the acceptance
    /// draw `r` admits it; reports whether it was queued.
    pub fn offer(&mut self, parent: (u32, u32), cell: (u32, u32), r: u64, axis: Option<(i32, i32)>) -> (queued: bool)
        requires
            old(self).wf(),
            parent.0 < old(self).side && parent.1 < old(self).side,
            cell.0 < old(self).side && cell.1 < old(self).side,
            r < ACCEPT_SCALE,
        ensures
            final(self).wf(),
            final(self).same_but_frontier(old(self)),
            queued == (!old(self).is_filled(cell) && accepts(
                r as int,
                offset(parent, old(self).side),
                axis_int(axis),
            )),
            final(self).frontier@ == (if queued {
                old(self).frontier@.push(cell)
            } else {
                old(self).frontier@
            }),
    {
        proof {
            assert(cell_index(cell, self.side) < self.side as int * self.side as int) by (nonlinear_arith)
                requires
                    cell.0 < self.side,
                    cell.1 < self.side,
            ;
        }
        let i: usize = cell.1 as usize * self.side as usize + cell.0 as usize;
        if self.canvas[i] != 0 {
            return false;
        }
        let vx: i64 = 2 * parent.0 as i64 - self.side as i64;
        let vy: i64 = 2 * parent.1 as i64 - self.side as i64;
        if push_accepted(r, vx, vy, axis) {
            self.frontier.push(cell);
            true
        } else {
            false
        }
    }

    /// Fills an empty cell on the canvas and in the open band. When this passes
    /// the next band boundary, the open band is closed with its intensity and a
    /// fresh one is opened, or, if the boundary after that lies beyond the area,
    /// growth ends (the result is false) and the open band keeps the cell.
    pub fn fill(&mut self, cell: (u32, u32)) -> (go_on: bool)
        requires
            old(self).wf(),
            cell.0 < old(self).side && cell.1 < old(self).side,
            !old(self).is_filled(cell),
            old(self).counter < old(self).area,
        ensures
            final(self).wf(),
            final(self).side == old(self).side,
            final(self).area == old(self).area,
            final(self).band_count == old(self).band_count,
            final(self).frontier@ == old(self).frontier@,
            final(self).counter == old(self).counter + 1,
            final(self).canvas@ == old(self).canvas@.update(cell_index(cell, old(self).side), 255),
            go_on == !(old(self).band_closes() && old(self).growth_ends()),
            old(self).band_closes() && !old(self).growth_ends() ==> {
                &&& final(self).layers@.len() == old(self).layers@.len() + 1
                &&& final(self).layers@.drop_last() == old(self).layers@
                &&& final(self).layers@.last().0.pixels@ == old(self).band@.update(
                    cell_index(cell, old(self).side),
                    255,
                )
                &&& final(self).layers@.last().1 == old(self).band_color
                &&& final(self).next_k == old(self).next_k + 1
                &&& forall|i: int| 0 <= i < final(self).band@.len() ==> final(self).band@[i] == 0
            },
            !(old(self).band_closes() && !old(self).growth_ends()) ==> {
                &&& final(self).layers@ == old(self).layers@
                &&& final(self).band@ == old(self).band@.update(cell_index(cell, old(self).side), 255)
                &&& final(self).band_color == old(self).band_color
                &&& final(self).next_k == old(self).next_k
            },
    {
        let ghost o = *old(self);
        let n: usize = self.side as usize * self.side as usize;
        proof {
            assert(cell_index(cell, self.side) < self.side as int * self.side as int) by (nonlinear_arith)
                requires
                    cell.0 < self.side,
                    cell.1 < self.side,
            ;
        }
        let i: usize = cell.1 as usize * self.side as usize + cell.0 as usize;
        proof {
            lemma_filled_count_fill(self.band@, i as int, 255);
        }
        self.canvas.set(i, 255);
        self.band.set(i, 255);
        self.counter = self.counter + 1;
        let ghost marked = self.band@;
        assert(forall|j: int, k: int|
            0 <= j < self.layers@.len() && 0 <= k < n && #[trigger] self.layers@[j].0.pixels@[k]
                != 0 ==> self.canvas@[k] != 0 && self.band@[k] == 0);
        let k = self.next_k;
        assert((k as int + 1) * self.area as int <= 18446744073709551616 * 4294967296) by (nonlinear_arith)
            requires
                0 <= k as int + 1 <= 18446744073709551616,
                0 <= self.area <= 4294967296,
        ;
        assert(0 <= k as int * self.area as int <= (k as int + 1) * self.area as int) by (nonlinear_arith)
            requires
                0 <= k,
                0 <= self.area,
        ;
        let boundary: u128 = k as u128 * self.area as u128 / self.band_count as u128;
        if self.counter as u128 > boundary {
            proof {
                lemma_index_below_count(k as int, self.area as int, self.band_count as int, self.counter as int);
                lemma_boundary_within_area(k as int + 1, self.area as int, self.band_count as int);
            }
            let after: u128 = (k as u128 + 1) * self.area as u128 / self.band_count as u128;
            if after > self.area as u128 {
                return false;
            }
            let mut full = filled_raster(self.side, self.side, 0u8).pixels;
            proof {
                lemma_filled_count_empty(full@);
            }
            std::mem::swap(&mut self.band, &mut full);
            let mask = Raster { width: self.side, height: self.side, pixels: full };
            self.layers.push((mask, self.band_color));
            self.next_k = k + 1;
            let step: usize = 255 / self.band_count;
            proof {
                lemma_intensity_bound(k as int, self.band_count as int);
            }
            self.band_color = (255 - k * step) as u8;
            proof {
                let ls = self.layers@;
                assert(ls.drop_last() =~= o.layers@);
                assert(total_filled(ls) == total_filled(o.layers@) + filled_count(marked));
                assert forall|j: int| 0 <= j < ls.len() implies (#[trigger] ls[j]).0.has_size(
                    (self.side, self.side),
                ) && ls[j].1 == band_intensity(j, self.band_count as int) && binary(ls[j].0.pixels@) by {
                    if j < o.layers@.len() {
                        assert(ls[j] == o.layers@[j]);
                    }
                }
                assert forall|j: int, q: int|
                    0 <= j < ls.len() && 0 <= q < n && #[trigger] ls[j].0.pixels@[q] != 0 implies self.canvas@[q]
                        != 0 && self.band@[q] == 0 by {
                    if j < o.layers@.len() {
                        assert(ls[j] == o.layers@[j]);
                    }
                }
                lemma_push_disjoint(o.layers@, ls.last());
                if o.band_count <= o.area {
                    lemma_boundary_step(k as int, o.area as int, o.band_count as int);
                    assert forall|j: int| 0 <= j < ls.len() implies total_filled(#[trigger] ls.subrange(0, j + 1))
                        == band_boundary(j + 1, o.area as int, o.band_count as int) + 1 by {
                        if j < o.layers@.len() {
                            assert(ls.subrange(0, j + 1) =~= o.layers@.subrange(0, j + 1));
                        } else {
                            assert(ls.subrange(0, j + 1) =~= ls);
                        }
                    }
                }
            }
        }
        true
    }

    /// Reports whether the cell is filled on the canvas.
    pub fn cell_filled(&self, cell: (u32, u32)) -> (b: bool)
        requires
            self.wf(),
            cell.0 < self.side && cell.1 < self.side,
        ensures
            b == self.is_filled(cell),
    {
        proof {
            assert(cell_index(cell, self.side) < self.side as int * self.side as int) by (nonlinear_arith)
                requires
                    cell.0 < self.side,
                    cell.1 < self.side,
            ;
        }
        self.canvas[cell.1 as usize * self.side as usize + cell.0 as usize] != 0
    }

    /// Closes the open band, even if it is short, and hands over the bands.
    pub fn finish(self) -> (a: GeneratedAsteroid)
        requires
            self.wf(),
        ensures
            a.wf(),
            a.layer_size == (self.side, self.side),
            a.combined_img.is_none(),
            a.colored_img.is_none(),
            a.layers@.drop_last() == self.layers@,
            a.layers@.last().0.pixels@ == self.band@,
            a.layers@.last().1 == self.band_color,
            self.holds_seed() ==> a.layers@[0].0.pixels@[self.seed_index()] == 255,
            finished_bands(a.layers@, self.area as int, self.band_count as int, self.side),
    {
        let ghost o = self;
        let side = self.side;
        let mut layers = self.layers;
        let mask = Raster { width: side, height: side, pixels: self.band };
        layers.push((mask, self.band_color));
        proof {
            let ls = layers@;
            assert(ls.drop_last() =~= o.layers@);
            assert(total_filled(ls) == o.counter);
            assert forall|j: int| 0 <= j < ls.len() implies (#[trigger] ls[j]).0.has_size((side, side))
                && ls[j].1 == band_intensity(j, o.band_count as int) && binary(ls[j].0.pixels@) by {
                if j < o.layers@.len() {
                    assert(ls[j] == o.layers@[j]);
                }
            }
            lemma_push_disjoint(o.layers@, ls.last());
            if o.band_count <= o.area {
                assert forall|j: int| 0 <= j < ls.len() - 1 implies total_filled(#[trigger] ls.subrange(0, j + 1))
                    == band_boundary(j + 1, o.area as int, o.band_count as int) + 1 by {
                    assert(ls.subrange(0, j + 1) =~= o.layers@.subrange(0, j + 1));
                }
            }
            assert forall|j1: int, j2: int| 0 <= j1 <= j2 < ls.len() implies #[trigger] ls[j1].1
                >= #[trigger] ls[j2].1 by {
                lemma_intensity_non_increasing(j1, j2, o.band_count as int);
            }
        }
        GeneratedAsteroid { layers, colored_img: None, combined_img: None, layer_size: (side, side) }
    }
}

/// What holds of the bands of every finished growth: at least one band and at
/// most `band_count`, all of the canvas size and binary, the `k`-th shaded
/// `255 - k * (255 / band_count)`, no pixel in two bands, and at most `area`
/// pixels filled over all of them; with at least one pixel per band, every
/// band but the last closes right after its boundary.
pub open spec fn finished_bands(layers: Seq<Band>, area: int, band_count: int, side: u32) -> bool {
    &&& 1 <= layers.len() <= band_count
    &&& forall|j: int|
        0 <= j < layers.len() ==> (#[trigger] layers[j]).0.has_size((side, side)) && layers[j].1
            == band_intensity(j, band_count) && binary(layers[j].0.pixels@)
    &&& forall|j1: int, j2: int|
        0 <= j1 <= j2 < layers.len() ==> #[trigger] layers[j1].1 >= #[trigger] layers[j2].1
    &&& bands_disjoint(layers)
    &&& total_filled(layers) <= area
    &&& closed_on_schedule(layers, layers.len() - 1, area, band_count)
}

/// Adding a band that shares no filled pixel with the earlier ones keeps the
/// bands disjoint.
proof fn lemma_push_disjoint(layers: Seq<Band>, b: Band)
    requires
        bands_disjoint(layers),
        forall|j: int, q: int|
            0 <= j < layers.len() && 0 <= q < b.0.pixels@.len() && 0 <= q < layers[j].0.pixels@.len()
                && #[trigger] layers[j].0.pixels@[q] != 0 ==> b.0.pixels@[q] == 0,
    ensures
        bands_disjoint(layers.push(b)),
{
    let ls = layers.push(b);
    assert forall|j1: int, j2: int, q: int|
        0 <= j1 < ls.len() && 0 <= j2 < ls.len() && j1 != j2 && 0 <= q < ls[j1].0.pixels@.len() && 0 <= q
            < ls[j2].0.pixels@.len() && #[trigger] ls[j1].0.pixels@[q] != 0 implies #[trigger] ls[j2].0.pixels@[q]
            == 0 by {
        if j1 < layers.len() && j2 < layers.len() {
            assert(layers[j1].0.pixels@[q] != 0);
        } else if j1 < layers.len() {
            assert(layers[j1].0.pixels@[q] != 0);
        } else if j2 < layers.len() {
            assert(ls[j2] == layers[j2]);
        }
    }
}

/// The filled count of band masks is the same whether read from the bands or from their view.
proof fn lemma_view_filled_total(vl: Seq<(Seq<u8>, u8)>, ls: Seq<Band>)
    requires
        vl.len() == ls.len(),
        forall|j: int| 0 <= j < ls.len() ==> (#[trigger] vl[j]).0 == ls[j].0.pixels@,
    ensures
        view_filled(vl) == total_filled(ls),
    decreases ls.len(),
{
    if ls.len() > 0 {
        lemma_view_filled_total(vl.drop_last(), ls.drop_last());
    }
}

/// The grayscale combination of a grown silhouette, before any smoothing,
/// has at most `area` opaque pixels.
pub proof fn lemma_grown_gray_within_area(a: GeneratedAsteroid, area: int, band_count: int)
    requires
        a.wf(),
        a.layer_size.1 == a.layer_size.0,
        finished_bands(a.layers@, area, band_count, a.layer_size.0),
    ensures
        opaque_count(gray_composite(a@)) <= area,
{
    lemma_view_filled_total(a@.layers, a.layers@);
    assert forall|j: int| 0 <= j < a@.layers.len() implies (#[trigger] a@.layers[j]).0.len() == pixel_count(a@.size) by {
        assert(a.layers@[j].0.has_size(a.layer_size));
    }
    lemma_gray_opaque_within_filled(a@);
}

/// Band intensities do not increase with the band index.
pub proof fn lemma_intensity_non_increasing(j1: int, j2: int, band_count: int)
    requires
        0 <= j1 <= j2,
        band_count >= 1,
    ensures
        band_intensity(j1, band_count) >= band_intensity(j2, band_count),
{
    let step = 255int / band_count;
    assert(j1 * step <= j2 * step) by (nonlinear_arith)
        requires
            0 <= j1 <= j2,
            step >= 0,
    ;
}

/// A cell on the canvas has its index within the canvas.
proof fn lemma_cell_in_canvas(cell: (u32, u32), side: u32)
    requires
        cell.0 < side,
        cell.1 < side,
    ensures
        0 <= cell_index(cell, side) < side as int * side as int,
{
    assert(0 <= cell_index(cell, side) < side as int * side as int) by (nonlinear_arith)
        requires
            cell.0 < side,
            cell.1 < side,
    ;
}

/// Nothing is filled yet and the centre is the only candidate.
spec fn fresh(g: &Growth, centre: (u32, u32)) -> bool {
    &&& g.frontier@ == seq![centre]
    &&& fresh_but_frontier(g)
}

/// Nothing is filled yet and no band is closed.
spec fn fresh_but_frontier(g: &Growth) -> bool {
    &&& g.layers@.len() == 0
    &&& forall|i: int| 0 <= i < g.canvas@.len() ==> g.canvas@[i] == 0
}

/// Grows a silhouette of at most `area` pixels from the canvas centre, split
/// into at most `band_count` bands, drawing from `rng`. Each accepted pixel
/// offers its eight neighbours; with an `axis`, growth is biased along it.
pub fn generate(area: u32, band_count: usize, axis: Option<(i32, i32)>, rng: &mut StdRng) -> (a: GeneratedAsteroid)
    requires
        area >= 1,
        band_count >= 1,
        8 * area as int <= usize::MAX,
    ensures
        a.wf(),
        is_canvas_side(area as int, a.layer_size.0 as int),
        a.layer_size.1 == a.layer_size.0,
        a.combined_img.is_none(),
        a.colored_img.is_none(),
        finished_bands(a.layers@, area as int, band_count as int, a.layer_size.0),
        a.layers@[0].0.pixels@[cell_index((a.layer_size.0 / 2, a.layer_size.0 / 2), a.layer_size.0)] == 255,
{
    let mut g = Growth::new(area, band_count);
    let ghost side = g.side;
    let ghost centre = (side / 2, side / 2);
    let mut step: u32 = 0;
    while step < area
        invariant
            g.wf(),
            g.area == area,
            g.band_count == band_count,
            g.side == side,
            centre == (side / 2, side / 2),
            is_canvas_side(area as int, side as int),
            g.counter <= step <= area,
            g.counter == 0 ==> fresh(&g, centre),
            step > 0 ==> g.counter > 0 && g.holds_seed(),
        ensures
            g.wf(),
            g.side == side,
            g.area == area,
            g.band_count == band_count,
            g.holds_seed(),
        decreases area - step,
    {
        step = step + 1;
        let mut picked: Option<(u32, u32)> = None;
        while picked.is_none() && g.frontier.len() > 0
            invariant
                g.wf(),
                g.area == area,
                g.band_count == band_count,
                g.side == side,
                g.counter < step <= area,
                centre == (side / 2, side / 2),
                picked matches Some(c) ==> c.0 < side && c.1 < side && !g.is_filled(c),
                g.counter == 0 ==> (picked is None && fresh(&g, centre)) || (picked == Some(centre) && fresh_but_frontier(&g)),
                g.counter > 0 ==> g.holds_seed(),
            decreases g.frontier@.len(),
        {
            let idx = draw_below(rng, g.frontier.len() as u64) as usize;
            proof {
                lemma_cell_in_canvas(centre, side);
            }
            picked = g.pick(idx);
        }
        let (x, y) = match picked {
            Some(c) => c,
            None => break,
        };
        let ghost before = g;
        proof {
            lemma_cell_in_canvas(centre, side);
        }
        let go_on = g.fill((x, y));
        proof {
            let si = before.seed_index();
            let ci = cell_index((x, y), side);
            lemma_cell_in_canvas((x, y), side);
            if before.counter == 0 {
                assert((x, y) == centre);
                assert(ci == si);
            }
            assert(before.band@.update(ci, 255)[si] == 255 || before.layers@.len() > 0);
            if g.layers@.len() > before.layers@.len() {
                if before.layers@.len() > 0 {
                    assert(g.layers@[0] == g.layers@.drop_last()[0]);
                } else {
                    assert(g.layers@[0] == g.layers@.last());
                }
            }
            assert(g.holds_seed());
        }
        if !go_on {
            break;
        }
        let mut dy: u32 = 0;
        while dy < 3
            invariant
                g.wf(),
                g.area == area,
                g.band_count == band_count,
                g.side == side,
                g.counter <= step <= area,
                g.counter > 0 && g.holds_seed(),
                x < side && y < side,
                dy <= 3,
            decreases 3 - dy,
        {
            let mut dx: u32 = 0;
            while dx < 3
                invariant
                    g.wf(),
                    g.area == area,
                    g.band_count == band_count,
                    g.side == side,
                    g.counter <= step <= area,
                    g.counter > 0 && g.holds_seed(),
                    x < side && y < side,
                    dy < 3,
                    dx <= 3,
                decreases 3 - dx,
            {
                if (dx != 1 || dy != 1) && x + dx >= 1 && y + dy >= 1 && x + dx - 1 < g.side && y + dy - 1 < g.side {
                    let cell = (x + dx - 1, y + dy - 1);
                    if !g.cell_filled(cell) {
                        let r = match axis {
                            Some(_) => draw_below(rng, ACCEPT_SCALE),
                            None => 0,
                        };
                        g.offer((x, y), cell, r, axis);
                    }
                }
                dx = dx + 1;
            }
            dy = dy + 1;
        }
    }
    assert(g.holds_seed());
    let a = g.finish();
    assert(a.layer_size.0 == side);
    a
}

/// A boundary passed by a count that stays within the area has an index below the band count.
proof fn lemma_index_below_count(k: int, area: int, band_count: int, c: int)
    requires
        k >= 0,
        band_count >= 1,
        0 <= c <= area,
        c > k * area / band_count,
    ensures
        k < band_count,
{
    if k >= band_count {
        assert(k * area >= band_count * area) by (nonlinear_arith)
            requires
                k >= band_count,
                area >= 0,
        ;
        assert((band_count * area) / band_count == area) by (nonlinear_arith)
            requires
                band_count >= 1,
        ;
        vstd::arithmetic::div_mod::lemma_div_is_ordered(band_count * area, k * area, band_count);
    }
}

/// Boundaries up to the band count lie within the area.
proof fn lemma_boundary_within_area(k: int, area: int, band_count: int)
    requires
        0 <= k <= band_count,
        band_count >= 1,
        area >= 0,
    ensures
        band_boundary(k, area, band_count) <= area,
{
    assert(k * area <= band_count * area) by (nonlinear_arith)
        requires
            0 <= k <= band_count,
            area >= 0,
    ;
    assert((band_count * area) / band_count == area) by (nonlinear_arith)
        requires
            band_count >= 1,
    ;
    vstd::arithmetic::div_mod::lemma_div_is_ordered(k * area, band_count * area, band_count);
}

/// With at least one pixel per band, successive boundaries differ by at least one.
proof fn lemma_boundary_step(k: int, area: int, band_count: int)
    requires
        k >= 0,
        1 <= band_count <= area,
    ensures
        band_boundary(k + 1, area, band_count) >= band_boundary(k, area, band_count) + 1,
{
    assert((k + 1) * area == k * area + area && k * area + band_count <= k * area + area) by (nonlinear_arith)
        requires
            k >= 0,
            1 <= band_count <= area,
    ;
    vstd::arithmetic::div_mod::lemma_div_is_ordered(k * area + band_count, (k + 1) * area, band_count);
    vstd::arithmetic::div_mod::lemma_div_plus_one(k * area, band_count);
}

/// Intensities of bands with an index below the band count stay within a byte.
proof fn lemma_intensity_bound(k: int, band_count: int)
    requires
        0 <= k < band_count,
    ensures
        0 <= k * (255int / band_count) <= 255,
{
    let step = 255int / band_count;
    assert(band_count * step <= 255) by (nonlinear_arith)
        requires
            band_count >= 1,
            step == 255int / band_count,
    ;
    assert(0 <= k * step <= band_count * step) by (nonlinear_arith)
        requires
            0 <= k < band_count,
            step >= 0,
    ;
}

} // verus!
