//! The error-diffusion engine: luminance of each (possibly coarsened) cell,
//! one raster scan that quantizes each cell and pushes its error forward
//! through a kernel of taps, and the paint-back onto the RGBA buffer.
use vstd::prelude::*;
use crate::image::{is_rgba, lemma_pixel_coords, lemma_pixel_index};
use crate::blocks::{
    block_luma, block_luma_sum, cell_bounds, cell_bounds_of, cell_count, cells_for,
    lemma_block_luma_bounds, paint_cells, painted,
};

verus! {

/// One forward tap of a kernel: the cell `dx` columns right and `dy` rows
/// down of the current one receives `weight / denominator` of its error.
#[derive(Clone, Copy, Debug, PartialEq, Eq)]
pub struct Tap {
    pub dx: i8,
    pub dy: i8,
    pub weight: u16,
}

/// An error-diffusion kernel: taps with weights over a common denominator.
#[derive(Clone, Debug)]
pub struct Kernel {
    pub taps: Vec<Tap>,
    pub denominator: u16,
}

/// Sum of the weights of the first `m` taps.
pub open spec fn tap_weights(taps: Seq<Tap>, m: int) -> int
    decreases m,
{
    if m <= 0 {
        0
    } else {
        tap_weights(taps, m - 1) + taps[m - 1].weight
    }
}

/// Sum of the weights of a list of taps.
pub open spec fn weight_sum(taps: Seq<Tap>) -> int {
    tap_weights(taps, taps.len() as int)
}

/// A tap sends error only to a cell later in raster order, at most two
/// columns aside and two rows down.
pub open spec fn tap_is_forward(t: Tap) -> bool {
    &&& -2 <= t.dx <= 2
    &&& 0 <= t.dy <= 2
    &&& (t.dy > 0 || t.dx > 0)
}

impl Kernel {
    /// Forward taps whose weights add up to at most one whole.
    pub open spec fn wf(&self) -> bool {
        &&& 0 < self.denominator
        &&& weight_sum(self.taps@) <= self.denominator
        &&& forall|k: int|
            0 <= k < self.taps@.len() ==> tap_is_forward(#[trigger] self.taps@[k])
                && self.taps@[k].weight <= self.denominator
    }
}

/// The taps of the Floyd–Steinberg kernel (denominator 16).
pub open spec fn floyd_steinberg_taps() -> Seq<Tap> {
    seq![
        Tap { dx: 1, dy: 0, weight: 7 },
        Tap { dx: -1i8, dy: 1, weight: 3 },
        Tap { dx: 0, dy: 1, weight: 5 },
        Tap { dx: 1, dy: 1, weight: 1 },
    ]
}

/// The taps of the Jarvis–Judice–Ninke kernel (denominator 48).
pub open spec fn jarvis_taps() -> Seq<Tap> {
    seq![
        Tap { dx: 1, dy: 0, weight: 7 },
        Tap { dx: 2, dy: 0, weight: 5 },
        Tap { dx: -2i8, dy: 1, weight: 3 },
        Tap { dx: -1i8, dy: 1, weight: 5 },
        Tap { dx: 0, dy: 1, weight: 7 },
        Tap { dx: 1, dy: 1, weight: 5 },
        Tap { dx: 2, dy: 1, weight: 3 },
        Tap { dx: -2i8, dy: 2, weight: 1 },
        Tap { dx: -1i8, dy: 2, weight: 3 },
        Tap { dx: 0, dy: 2, weight: 5 },
        Tap { dx: 1, dy: 2, weight: 3 },
        Tap { dx: 2, dy: 2, weight: 1 },
    ]
}

/// The taps of the Sierra kernel (denominator 32).
pub open spec fn sierra_taps() -> Seq<Tap> {
    seq![
        Tap { dx: 1, dy: 0, weight: 5 },
        Tap { dx: 2, dy: 0, weight: 3 },
        Tap { dx: -2i8, dy: 1, weight: 2 },
        Tap { dx: -1i8, dy: 1, weight: 4 },
        Tap { dx: 0, dy: 1, weight: 5 },
        Tap { dx: 1, dy: 1, weight: 4 },
        Tap { dx: 2, dy: 1, weight: 2 },
        Tap { dx: -1i8, dy: 2, weight: 2 },
        Tap { dx: 0, dy: 2, weight: 3 },
        Tap { dx: 1, dy: 2, weight: 2 },
    ]
}

/// The taps of the Two-row Sierra kernel (denominator 16).
pub open spec fn sierra_two_row_taps() -> Seq<Tap> {
    seq![
        Tap { dx: 1, dy: 0, weight: 4 },
        Tap { dx: 2, dy: 0, weight: 3 },
        Tap { dx: -2i8, dy: 1, weight: 1 },
        Tap { dx: -1i8, dy: 1, weight: 2 },
        Tap { dx: 0, dy: 1, weight: 3 },
        Tap { dx: 1, dy: 1, weight: 2 },
        Tap { dx: 2, dy: 1, weight: 1 },
    ]
}

/// The taps of the Sierra Lite kernel (denominator 4).
pub open spec fn sierra_lite_taps() -> Seq<Tap> {
    seq![
        Tap { dx: 1, dy: 0, weight: 2 },
        Tap { dx: 0, dy: 1, weight: 1 },
        Tap { dx: 1, dy: 1, weight: 1 },
    ]
}

/// The taps of the Atkinson kernel (denominator 8).
pub open spec fn atkinson_taps() -> Seq<Tap> {
    seq![
        Tap { dx: 1, dy: 0, weight: 1 },
        Tap { dx: 2, dy: 0, weight: 1 },
        Tap { dx: -1i8, dy: 1, weight: 1 },
        Tap { dx: 0, dy: 1, weight: 1 },
        Tap { dx: 1, dy: 1, weight: 1 },
        Tap { dx: 0, dy: 2, weight: 1 },
    ]
}

fn tap(dx: i8, dy: i8, weight: u16) -> (t: Tap)
    ensures
        t == (Tap { dx, dy, weight }),
{
    Tap { dx, dy, weight }
}

/// Floyd–Steinberg: 7/16 right, 3/16, 5/16, 1/16 on the next row.
pub fn floyd_steinberg_kernel() -> (k: Kernel)
    ensures
        k.wf(),
        k.taps@ == floyd_steinberg_taps(),
        k.taps@.len() == 4,
        weight_sum(k.taps@) == k.denominator,
        k.denominator == 16,
{
    let k = Kernel { taps: vec![tap(1, 0, 7), tap(-1, 1, 3), tap(0, 1, 5), tap(1, 1, 1)], denominator: 16 };
    assert(weight_sum(k.taps@) == 16) by {
        reveal_with_fuel(tap_weights, 5);
    }
    k
}

/// Jarvis–Judice–Ninke: twelve taps over two rows below, out of 48.
pub fn jarvis_kernel() -> (k: Kernel)
    ensures
        k.wf(),
        k.taps@ == jarvis_taps(),
        k.taps@.len() == 12,
        weight_sum(k.taps@) == k.denominator,
        k.denominator == 48,
{
    let k = Kernel {
        taps: vec![
            tap(1, 0, 7), tap(2, 0, 5),
            tap(-2, 1, 3), tap(-1, 1, 5), tap(0, 1, 7), tap(1, 1, 5), tap(2, 1, 3),
            tap(-2, 2, 1), tap(-1, 2, 3), tap(0, 2, 5), tap(1, 2, 3), tap(2, 2, 1),
        ],
        denominator: 48,
    };
    assert(weight_sum(k.taps@) == 48) by {
        reveal_with_fuel(tap_weights, 13);
    }
    k
}

/// Sierra (three rows): ten taps out of 32.
pub fn sierra_kernel() -> (k: Kernel)
    ensures
        k.wf(),
        k.taps@ == sierra_taps(),
        k.taps@.len() == 10,
        weight_sum(k.taps@) == k.denominator,
        k.denominator == 32,
{
    let k = Kernel {
        taps: vec![
            tap(1, 0, 5), tap(2, 0, 3),
            tap(-2, 1, 2), tap(-1, 1, 4), tap(0, 1, 5), tap(1, 1, 4), tap(2, 1, 2),
            tap(-1, 2, 2), tap(0, 2, 3), tap(1, 2, 2),
        ],
        denominator: 32,
    };
    assert(weight_sum(k.taps@) == 32) by {
        reveal_with_fuel(tap_weights, 11);
    }
    k
}

/// Two-row Sierra: seven taps out of 16.
pub fn sierra_two_row_kernel() -> (k: Kernel)
    ensures
        k.wf(),
        k.taps@ == sierra_two_row_taps(),
        k.taps@.len() == 7,
        weight_sum(k.taps@) == k.denominator,
        k.denominator == 16,
{
    let k = Kernel {
        taps: vec![
            tap(1, 0, 4), tap(2, 0, 3),
            tap(-2, 1, 1), tap(-1, 1, 2), tap(0, 1, 3), tap(1, 1, 2), tap(2, 1, 1),
        ],
        denominator: 16,
    };
    assert(weight_sum(k.taps@) == 16) by {
        reveal_with_fuel(tap_weights, 8);
    }
    k
}

/// Sierra Lite: 2/4 right, 1/4 below, 1/4 below right.
pub fn sierra_lite_kernel() -> (k: Kernel)
    ensures
        k.wf(),
        k.taps@ == sierra_lite_taps(),
        k.taps@.len() == 3,
        weight_sum(k.taps@) == k.denominator,
        k.denominator == 4,
{
    let k = Kernel { taps: vec![tap(1, 0, 2), tap(0, 1, 1), tap(1, 1, 1)], denominator: 4 };
    assert(weight_sum(k.taps@) == 4) by {
        reveal_with_fuel(tap_weights, 4);
    }
    k
}

/// Atkinson: six taps of 1/8 each; a quarter of every error is dropped.
pub fn atkinson_kernel() -> (k: Kernel)
    ensures
        k.wf(),
        k.taps@ == atkinson_taps(),
        k.taps@.len() == 6,
        4 * weight_sum(k.taps@) == 3 * k.denominator,
        k.denominator == 8,
        forall|i: int| 0 <= i < 6 ==> (#[trigger] k.taps@[i]).weight == 1,
{
    let k = Kernel {
        taps: vec![tap(1, 0, 1), tap(2, 0, 1), tap(-1, 1, 1), tap(0, 1, 1), tap(1, 1, 1), tap(0, 2, 1)],
        denominator: 8,
    };
    assert(weight_sum(k.taps@) == 6) by {
        reveal_with_fuel(tap_weights, 7);
    }
    k
}

/// The weights of the Floyd–Steinberg, Jarvis–Judice–Ninke, Sierra,
/// two-row Sierra and Sierra Lite kernels add up to exactly one whole
/// (their denominator); Atkinson's add up to three quarters.
pub proof fn lemma_kernel_weights()
    ensures
        weight_sum(floyd_steinberg_taps()) == 16,
        weight_sum(jarvis_taps()) == 48,
        weight_sum(sierra_taps()) == 32,
        weight_sum(sierra_two_row_taps()) == 16,
        weight_sum(sierra_lite_taps()) == 4,
        4 * weight_sum(atkinson_taps()) == 3 * 8,
{
    reveal_with_fuel(tap_weights, 13);
}

/// The quantized level of a value in thousandths: 0 below the threshold,
/// full white (255000) otherwise.
pub open spec fn level(v: int, threshold: int) -> int {
    if v < 1000 * threshold {
        0
    } else {
        255000
    }
}

/// `weight / den` of an error, rounded toward zero.
pub open spec fn share(e: int, weight: int, den: int) -> int {
    if e >= 0 {
        e * weight / den
    } else {
        -((-e) * weight / den)
    }
}

/// The cell a tap reaches from `(x, y)` in a `gw` x `gh` grid, if inside.
pub open spec fn tap_target(x: int, y: int, gw: int, gh: int, t: Tap) -> Option<int> {
    let nx = x + t.dx;
    let ny = y + t.dy;
    if 0 <= nx < gw && 0 <= ny < gh {
        Some(ny * gw + nx)
    } else {
        None
    }
}

/// The grid after the first `k` taps have received their share of error `e`
/// from cell `(x, y)`.
pub open spec fn spread(
    g: Seq<i64>,
    gw: int,
    gh: int,
    x: int,
    y: int,
    e: int,
    taps: Seq<Tap>,
    den: int,
    k: int,
) -> Seq<i64>
    decreases k,
{
    if k <= 0 {
        g
    } else {
        let g1 = spread(g, gw, gh, x, y, e, taps, den, k - 1);
        let t = taps[k - 1];
        match tap_target(x, y, gw, gh, t) {
            Some(j) => g1.update(j, (g1[j] + share(e, t.weight as int, den)) as i64),
            None => g1,
        }
    }
}

/// Visiting cell `i`: it is set to its level and its error is spread.
pub open spec fn step(g: Seq<i64>, gw: int, gh: int, threshold: int, taps: Seq<Tap>, den: int, i: int) -> Seq<
    i64,
> {
    let v = g[i] as int;
    let q = level(v, threshold);
    spread(
        g.update(i, q as i64),
        gw,
        gh,
        i % gw,
        i / gw,
        v - q,
        taps,
        den,
        taps.len() as int,
    )
}

/// The grid after the first `k` cells of the raster scan have been visited.
pub open spec fn diffused(g: Seq<i64>, gw: int, gh: int, threshold: int, taps: Seq<Tap>, den: int, k: int) -> Seq<
    i64,
>
    decreases k,
{
    if k <= 0 {
        g
    } else {
        step(diffused(g, gw, gh, threshold, taps, den, k - 1), gw, gh, threshold, taps, den, k - 1)
    }
}

/// The output byte of cell `i`: its value at the moment it is visited,
/// quantized to 0 or 255.
pub open spec fn decision(g: Seq<i64>, gw: int, gh: int, threshold: int, taps: Seq<Tap>, den: int, i: int) -> u8 {
    if diffused(g, gw, gh, threshold, taps, den, i)[i] < 1000 * threshold {
        0
    } else {
        255
    }
}

pub open spec fn decisions(g: Seq<i64>, gw: int, gh: int, threshold: int, taps: Seq<Tap>, den: int) -> Seq<u8> {
    Seq::new(g.len(), |i: int| decision(g, gw, gh, threshold, taps, den, i))
}

/// Every cell holds a luminance between 0 and 255000 thousandths.
pub open spec fn is_luma_grid(g: Seq<i64>) -> bool {
    forall|j: int| 0 <= j < g.len() ==> 0 <= #[trigger] g[j] <= 255000
}

/// The cell from which a tap reaches cell `j`, if inside the grid.
pub open spec fn tap_source(j: int, gw: int, gh: int, t: Tap) -> Option<int> {
    let sx = j % gw - t.dx;
    let sy = j / gw - t.dy;
    if 0 <= sx < gw && 0 <= sy < gh {
        Some(sy * gw + sx)
    } else {
        None
    }
}

/// Tap `m` has delivered to cell `j` by the time tap `k` of cell `i` is due.
pub open spec fn delivered(taps: Seq<Tap>, j: int, gw: int, gh: int, i: int, k: int, m: int) -> bool {
    match tap_source(j, gw, gh, taps[m]) {
        Some(s) => s < i || (s == i && m < k),
        None => false,
    }
}

/// Total weight (over the first `m` taps) of the error shares that cell `j`
/// has received by the time tap `k` of cell `i` is due.
pub open spec fn received(taps: Seq<Tap>, j: int, gw: int, gh: int, i: int, k: int, m: int) -> int
    decreases m,
{
    if m <= 0 {
        0
    } else {
        received(taps, j, gw, gh, i, k, m - 1) + if delivered(taps, j, gw, gh, i, k, m - 1) {
            taps[m - 1].weight as int
        } else {
            0
        }
    }
}

/// `v` differs from `v0` by at most `255000 * r / den`.
pub open spec fn within(v: int, v0: int, den: int, r: int) -> bool {
    den * (v - v0) <= 255000 * r && den * (v0 - v) <= 255000 * r
}

proof fn lemma_received_next_tap(taps: Seq<Tap>, j: int, gw: int, gh: int, i: int, k: int, m: int)
    requires
        0 <= k,
    ensures
        received(taps, j, gw, gh, i, k + 1, m) == received(taps, j, gw, gh, i, k, m) + if k < m
            && tap_source(j, gw, gh, taps[k]) == Some(i) {
            taps[k].weight as int
        } else {
            0
        },
    decreases m,
{
    if m > 0 {
        lemma_received_next_tap(taps, j, gw, gh, i, k, m - 1);
    }
}

proof fn lemma_received_next_cell(taps: Seq<Tap>, j: int, gw: int, gh: int, i: int, big: int, m: int)
    requires
        m <= big,
    ensures
        received(taps, j, gw, gh, i, big, m) == received(taps, j, gw, gh, i + 1, 0, m),
    decreases m,
{
    if m > 0 {
        lemma_received_next_cell(taps, j, gw, gh, i, big, m - 1);
    }
}

proof fn lemma_received_none_yet(taps: Seq<Tap>, j: int, gw: int, gh: int, m: int)
    requires
        0 < gw,
    ensures
        received(taps, j, gw, gh, 0, 0, m) == 0,
    decreases m,
{
    if m > 0 {
        lemma_received_none_yet(taps, j, gw, gh, m - 1);
        let t = taps[m - 1];
        let sx = j % gw - t.dx;
        let sy = j / gw - t.dy;
        if 0 <= sx < gw && 0 <= sy < gh {
            assert(sy * gw + sx >= 0) by (nonlinear_arith)
                requires
                    0 <= sy,
                    0 <= sx,
                    0 < gw,
            ;
        }
    }
}

proof fn lemma_received_bounds(taps: Seq<Tap>, j: int, gw: int, gh: int, i: int, k: int, m: int)
    ensures
        0 <= received(taps, j, gw, gh, i, k, m) <= tap_weights(taps, m),
    decreases m,
{
    if m > 0 {
        lemma_received_bounds(taps, j, gw, gh, i, k, m - 1);
    }
}

/// A tap from cell `i` reaches cell `j` exactly when `i` is the cell from
/// which that tap reaches `j`; and it only ever reaches later cells.
proof fn lemma_target_source(i: int, gw: int, gh: int, t: Tap, j: int)
    requires
        0 <= i < gw * gh,
        0 <= j < gw * gh,
        0 <= gh,
        tap_is_forward(t),
    ensures
        (tap_source(j, gw, gh, t) == Some(i)) <==> (tap_target(i % gw, i / gw, gw, gh, t) == Some(j)),
        tap_target(i % gw, i / gw, gw, gh, t) == Some(j) ==> i < j,
{
    lemma_pixel_coords(i, gw, gh);
    lemma_pixel_coords(j, gw, gh);
    let x = i % gw;
    let y = i / gw;
    let nx = x + t.dx;
    let ny = y + t.dy;
    if tap_target(x, y, gw, gh, t) == Some(j) {
        assert(j == ny * gw + nx);
        vstd::arithmetic::div_mod::lemma_fundamental_div_mod_converse(j, gw, ny, nx);
        assert(ny * gw + nx > y * gw + x) by (nonlinear_arith)
            requires
                t.dy > 0 || t.dx > 0,
                ny == y + t.dy,
                nx == x + t.dx,
                0 <= nx < gw,
                0 <= x < gw,
                t.dy >= 0,
        ;
    }
    if tap_source(j, gw, gh, t) == Some(i) {
        let sx = j % gw - t.dx;
        let sy = j / gw - t.dy;
        assert(i == sy * gw + sx);
        vstd::arithmetic::div_mod::lemma_fundamental_div_mod_converse(i, gw, sy, sx);
        assert(j == (j / gw) * gw + j % gw);
    }
}

fn share_of(e: i64, weight: u16, den: u16) -> (r: i64)
    requires
        -255000 <= e <= 255000,
        0 < den,
        weight <= den,
    ensures
        r == share(e as int, weight as int, den as int),
        -255000 <= r <= 255000,
        den * r <= 255000 * weight,
        den * (-r) <= 255000 * weight,
{
    let m: u64 = if e >= 0 {
        e as u64
    } else {
        (-e) as u64
    };
    proof {
        assert(m * weight <= m * den) by (nonlinear_arith)
            requires
                weight <= den,
                0 <= m,
        ;
        assert(m * weight <= 255000 * weight) by (nonlinear_arith)
            requires
                0 <= weight,
                0 <= m <= 255000,
        ;
        assert(m * den <= 255000 * 65535) by (nonlinear_arith)
            requires
                den <= 65535,
                0 <= m <= 255000,
        ;
        vstd::arithmetic::div_mod::lemma_div_is_ordered(m * weight, m * den, den as int);
        vstd::arithmetic::div_mod::lemma_div_multiples_vanish(m as int, den as int);
        assert(m * den == den * m) by (nonlinear_arith);
        vstd::arithmetic::div_mod::lemma_div_is_ordered(0, m * weight, den as int);
        vstd::arithmetic::div_mod::lemma_fundamental_div_mod(m * weight, den as int);
        vstd::arithmetic::div_mod::lemma_mod_bound(m * weight, den as int);
    }
    let s = (m * (weight as u64) / (den as u64)) as i64;
    proof {
        let p = m * weight;
        let dn = den as int;
        assert(dn * (p / dn) <= p);
        assert(den * s <= 255000 * weight);
        assert(den * s >= 0 && den * (-s) == -(den * s)) by (nonlinear_arith)
            requires
                s >= 0,
                den > 0,
        ;
        assert(0 <= 255000 * weight);
    }
    if e >= 0 {
        s
    } else {
        -s
    }
}

fn target_of(x: usize, y: usize, gw: usize, gh: usize, t: Tap) -> (r: Option<usize>)
    requires
        x < gw,
        y < gh,
        gw * gh <= usize::MAX,
    ensures
        match r {
            Some(j) => tap_target(x as int, y as int, gw as int, gh as int, t) == Some(j as int),
            None => tap_target(x as int, y as int, gw as int, gh as int, t) is None,
        },
        r is Some ==> r->0 < gw * gh,
{
    let nx_ok = if t.dx >= 0 {
        (t.dx as usize) < gw - x
    } else {
        x >= ((-(t.dx as i16)) as usize)
    };
    let ny_ok = if t.dy >= 0 {
        (t.dy as usize) < gh - y
    } else {
        y >= ((-(t.dy as i16)) as usize)
    };
    if nx_ok && ny_ok {
        let nx: usize = if t.dx >= 0 {
            x + t.dx as usize
        } else {
            x - ((-(t.dx as i16)) as usize)
        };
        let ny: usize = if t.dy >= 0 {
            y + t.dy as usize
        } else {
            y - ((-(t.dy as i16)) as usize)
        };
        proof {
            lemma_pixel_index(nx as int, ny as int, gw as int, gh as int);
        }
        Some(ny * gw + nx)
    } else {
        None
    }
}

/// The raster scan: visits every cell of the `gw` x `gh` grid in row-major
/// order, quantizes it against `threshold` (in whole units; cells hold
/// thousandths) and spreads its error through `kernel`. Returns the
/// decision of each cell, 0 or 255.
pub fn diffuse(grid: &mut Vec<i64>, gw: usize, gh: usize, threshold: u8, kernel: &Kernel) -> (out:
    Vec<u8>)
    requires
        old(grid)@.len() == gw * gh,
        is_luma_grid(old(grid)@),
        kernel.wf(),
    ensures
        out@ == decisions(old(grid)@, gw as int, gh as int, threshold as int, kernel.taps@, kernel.denominator as int),
        final(grid)@ == diffused(
            old(grid)@,
            gw as int,
            gh as int,
            threshold as int,
            kernel.taps@, kernel.denominator as int,
            gw * gh,
        ),
{
    let ghost g = grid@;
    let ghost t = threshold as int;
    let ghost taps = kernel.taps@;
    let ghost den = kernel.denominator as int;
    let ghost nt = kernel.taps@.len() as int;
    let n = grid.len();
    let mut out: Vec<u8> = Vec::new();
    let mut i: usize = 0;
    proof {
        if n > 0 {
            lemma_pixel_coords(0, gw as int, gh as int);
            assert forall|j: int| 0 <= j < n implies received(taps, j, gw as int, gh as int, 0, 0, nt) == 0 by {
                lemma_received_none_yet(taps, j, gw as int, gh as int, nt);
            }
        }
    }
    while i < n
        invariant
            n == g.len(),
            g == old(grid)@,
            t == threshold as int,
            taps == kernel.taps@,
            den == kernel.denominator as int,
            nt == taps.len(),
            n == gw * gh,
            kernel.wf(),
            is_luma_grid(g),
            i <= n,
            grid@ == diffused(g, gw as int, gh as int, t, taps, den, i as int),
            grid@.len() == n,
            forall|j: int| 0 <= j < i ==> 0 <= #[trigger] grid@[j] <= 255000,
            forall|j: int|
                i <= j < n ==> within(
                    #[trigger] grid@[j] as int,
                    g[j] as int,
                    den,
                    received(taps, j, gw as int, gh as int, i as int, 0, nt),
                ),
            out@.len() == i,
            forall|j: int| 0 <= j < i ==> #[trigger] out@[j] == decision(g, gw as int, gh as int, t, taps, den, j),
        decreases n - i,
    {
        proof {
            lemma_pixel_coords(i as int, gw as int, gh as int);
            lemma_received_bounds(taps, i as int, gw as int, gh as int, i as int, 0, nt);
            let r = received(taps, i as int, gw as int, gh as int, i as int, 0, nt);
            let v0 = g[i as int] as int;
            let v = grid@[i as int] as int;
            assert(within(v, v0, den, r));
            assert(-255000 <= v - v0 <= 255000) by (nonlinear_arith)
                requires
                    den * (v - v0) <= 255000 * r,
                    den * (v0 - v) <= 255000 * r,
                    0 <= r <= den,
                    0 < den,
            ;
        }
        let x = i % gw;
        let y = i / gw;
        let v = grid[i];
        let q: i64 = if v < 1000 * (threshold as i64) {
            0
        } else {
            255000
        };
        let e = v - q;
        out.push(if q == 0 {
            0u8
        } else {
            255u8
        });
        proof {
            assert(q == level(v as int, t));
            assert(out@[i as int] == decision(g, gw as int, gh as int, t, taps, den, i as int));
        }
        let ghost before = grid@;
        grid.set(i, q);
        let ghost base = grid@;
        assert(base == before.update(i as int, level(v as int, t) as i64));
        let ntaps = kernel.taps.len();
        let mut k: usize = 0;
        while k < ntaps
            invariant
                n == g.len(),
                n == gw * gh,
                taps == kernel.taps@,
                den == kernel.denominator as int,
                nt == taps.len(),
                kernel.wf(),
                is_luma_grid(g),
                i < n,
                x == i as int % gw as int,
                y == i as int / gw as int,
                x < gw,
                y < gh,
                ntaps == nt,
                k <= ntaps,
                -255000 <= e <= 255000,
                base.len() == n,
                grid@ == spread(base, gw as int, gh as int, x as int, y as int, e as int, taps, den, k as int),
                grid@.len() == n,
                forall|j: int| 0 <= j <= i ==> 0 <= #[trigger] grid@[j] <= 255000,
                forall|j: int|
                    i < j < n ==> within(
                        #[trigger] grid@[j] as int,
                        g[j] as int,
                        den,
                        received(taps, j, gw as int, gh as int, i as int, k as int, nt),
                    ),
            decreases ntaps - k,
        {
            let tp = kernel.taps[k];
            assert(tap_is_forward(taps[k as int]));
            let ghost g1 = grid@;
            proof {
                assert forall|j: int| i < j < n implies received(taps, j, gw as int, gh as int, i as int, k + 1, nt)
                    == received(taps, j, gw as int, gh as int, i as int, k as int, nt) + if tap_source(j, gw as int, gh as int, tp) == Some(i as int) {
                        tp.weight as int
                    } else {
                        0
                    } by {
                    lemma_received_next_tap(taps, j, gw as int, gh as int, i as int, k as int, nt);
                }
            }
            match target_of(x, y, gw, gh, tp) {
                Some(j) => {
                    proof {
                        lemma_target_source(i as int, gw as int, gh as int, tp, j as int);
                        lemma_received_bounds(taps, j as int, gw as int, gh as int, i as int, k as int, nt);
                        let r = received(taps, j as int, gw as int, gh as int, i as int, k as int, nt);
                        let w0 = g[j as int] as int;
                        let cv = g1[j as int] as int;
                        assert(within(cv, w0, den, r));
                        assert(-255000 <= cv - w0 <= 255000) by (nonlinear_arith)
                            requires
                                den * (cv - w0) <= 255000 * r,
                                den * (w0 - cv) <= 255000 * r,
                                0 <= r <= den,
                                0 < den,
                        ;
                    }
                    let s = share_of(e, tp.weight, kernel.denominator);
                    let cur = grid[j];
                    grid.set(j, cur + s);
                    proof {
                        assert(grid@ == spread(base, gw as int, gh as int, x as int, y as int, e as int, taps, den, k + 1));
                        assert forall|jj: int| i < jj < n implies within(
                            #[trigger] grid@[jj] as int,
                            g[jj] as int,
                            den,
                            received(taps, jj, gw as int, gh as int, i as int, k + 1, nt),
                        ) by {
                            lemma_target_source(i as int, gw as int, gh as int, tp, jj);
                            if jj == j {
                                assert(den * (cur + s - g[jj]) == den * (cur - g[jj]) + den * s) by (nonlinear_arith);
                                assert(den * (g[jj] - cur - s) == den * (g[jj] - cur) + den * (-s)) by (nonlinear_arith);
                            }
                        }
                    }
                },
                None => {
                    proof {
                        assert forall|jj: int| i < jj < n implies within(
                            #[trigger] grid@[jj] as int,
                            g[jj] as int,
                            den,
                            received(taps, jj, gw as int, gh as int, i as int, k + 1, nt),
                        ) by {
                            lemma_target_source(i as int, gw as int, gh as int, tp, jj);
                        }
                    }
                },
            }
            k = k + 1;
        }
        proof {
            assert(grid@ == step(diffused(g, gw as int, gh as int, t, taps, den, i as int), gw as int, gh as int, t, taps, den, i as int));
            assert forall|j: int| i + 1 <= j < n implies within(
                #[trigger] grid@[j] as int,
                g[j] as int,
                den,
                received(taps, j, gw as int, gh as int, i + 1, 0, nt),
            ) by {
                lemma_received_next_cell(taps, j, gw as int, gh as int, i as int, nt, nt);
            }
        }
        i = i + 1;
    }
    proof {
        assert(out@ =~= decisions(g, gw as int, gh as int, t, taps, den));
    }
    out
}

/// Mean luminance (thousandths, rounded down) of cell `c` of the grid of
/// `bs` x `bs` cells, `gw` cells wide.
pub open spec fn cell_mean(d: Seq<u8>, w: int, h: int, bs: int, gw: int, c: int) -> int {
    let b = cell_bounds(w, h, bs, c % gw, c / gw);
    block_luma(d, w, b.0, b.1, b.2, b.3) / ((b.2 - b.0) * (b.3 - b.1))
}

/// The luminance grid that diffusion runs on: one mean per cell.
pub open spec fn coarse_luma(d: Seq<u8>, w: int, h: int, bs: int) -> Seq<i64> {
    let gw = cells_for(w, bs);
    Seq::new((gw * cells_for(h, bs)) as nat, |c: int| cell_mean(d, w, h, bs, gw, c) as i64)
}

/// A block scale of 0 or 1 means full resolution.
pub open spec fn effective_scale(bs: int) -> int {
    if bs > 1 {
        bs
    } else {
        1
    }
}

/// The image after error diffusion with `kernel`: each pixel's colour
/// bytes take the decision of its cell, alpha bytes are kept.
pub open spec fn diffusion_result(
    d: Seq<u8>,
    w: int,
    h: int,
    threshold: int,
    taps: Seq<Tap>, den: int,
    block_scale: int,
) -> Seq<u8> {
    let s = effective_scale(block_scale);
    let gw = cells_for(w, s);
    let gh = cells_for(h, s);
    painted(d, w, s, gw, decisions(coarse_luma(d, w, h, s), gw, gh, threshold, taps, den))
}

/// The luminance grid of the cells of edge `bs`.
pub fn coarse_grid(data: &Vec<u8>, w: usize, h: usize, bs: usize) -> (g: Vec<i64>)
    requires
        is_rgba(data@, w as int, h as int),
        0 < bs,
    ensures
        g@ == coarse_luma(data@, w as int, h as int, bs as int),
        is_luma_grid(g@),
{
    let n = data.len();
    let gw = cell_count(w, bs);
    let gh = cell_count(h, bs);
    proof {
        assert(gw * gh <= w * h) by (nonlinear_arith)
            requires
                gw <= w,
                gh <= h,
                0 <= gw,
                0 <= gh,
        ;
        assert(w * h * 4 == n);
    }
    let total = gw * gh;
    let mut g: Vec<i64> = Vec::new();
    let mut c: usize = 0;
    while c < total
        invariant
            n == data@.len(),
            is_rgba(data@, w as int, h as int),
            0 < bs,
            gw == cells_for(w as int, bs as int),
            gh == cells_for(h as int, bs as int),
            total == gw * gh,
            c <= total,
            g@.len() == c,
            forall|k: int|
                0 <= k < c ==> #[trigger] g@[k] == cell_mean(
                    data@,
                    w as int,
                    h as int,
                    bs as int,
                    gw as int,
                    k,
                ) as i64,
            forall|k: int| 0 <= k < c ==> 0 <= #[trigger] g@[k] <= 255000,
        decreases total - c,
    {
        proof {
            lemma_pixel_coords(c as int, gw as int, gh as int);
        }
        let (x0, y0, x1, y1) = cell_bounds_of(w, h, bs, c % gw, c / gw);
        let sum = block_luma_sum(data, w, h, x0, y0, x1, y1);
        let ghost count = (x1 - x0) * (y1 - y0);
        proof {
            lemma_block_luma_bounds(data@, w as int, x0 as int, y0 as int, x1 as int, y1 as int);
            assert(0 < count <= w * h) by (nonlinear_arith)
                requires
                    count == (x1 - x0) * (y1 - y0),
                    x0 < x1 <= w,
                    y0 < y1 <= h,
            ;
            assert(255000 * count == count * 255000) by (nonlinear_arith);
            crate::image::lemma_mean_at_most(sum as int, count, 255000);
        }
        let count = ((x1 - x0) * (y1 - y0)) as u128;
        let mean = (sum / count) as i64;
        g.push(mean);
        c = c + 1;
    }
    proof {
        assert(g@ =~= coarse_luma(data@, w as int, h as int, bs as int));
    }
    g
}

/// Error diffusion of an RGBA buffer with `kernel`: luminance per cell of
/// edge `block_scale` (one pixel when it is 0 or 1), one raster scan over
/// the cells, and the decisions painted back onto the pixels.
pub fn error_diffusion_generic(
    data: &mut Vec<u8>,
    width: u32,
    height: u32,
    threshold: u8,
    kernel: &Kernel,
    block_scale: u32,
)
    requires
        is_rgba(old(data)@, width as int, height as int),
        kernel.wf(),
    ensures
        final(data)@ == diffusion_result(
            old(data)@,
            width as int,
            height as int,
            threshold as int,
            kernel.taps@, kernel.denominator as int,
            block_scale as int,
        ),
{
    let w = width as usize;
    let h = height as usize;
    let bs: usize = if block_scale > 1 {
        block_scale as usize
    } else {
        1
    };
    let gw = cell_count(w, bs);
    let gh = cell_count(h, bs);
    let mut grid = coarse_grid(data, w, h, bs);
    let cells = diffuse(&mut grid, gw, gh, threshold, kernel);
    paint_cells(data, w, h, bs, gw, &cells);
}
} // verus!
