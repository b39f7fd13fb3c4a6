//! Viewport fitting: clamping an ideal (fractional) view rectangle into the
//! fixed pixel bounds of the map.

use vstd::prelude::*;

use crate::path::{path_points, spec_bounds, Bounds, TerritoryPath};

verus! {

/// Numerator and denominator of a `Ratio` stay within this bound.
pub const RATIO_LIMIT: u32 = 1_000_000;

/// A positive rational number `num / den`, used for the zoom factor and the
/// target aspect ratio of a fitted view.
#[derive(Clone, Copy, Debug, PartialEq, Eq, Structural)]
pub struct Ratio {
    pub num: u32,
    pub den: u32,
}

impl Ratio {
    pub open spec fn wf(self) -> bool {
        &&& 1 <= self.num <= RATIO_LIMIT
        &&& 1 <= self.den <= RATIO_LIMIT
    }

    /// The ratio `num / den`, checked against the representation limits.
    pub fn new(num: u32, den: u32) -> (r: Option<Ratio>)
        ensures
            r is Some <==> 1 <= num <= RATIO_LIMIT && 1 <= den <= RATIO_LIMIT,
            r matches Some(q) ==> q == (Ratio { num, den }) && q.wf(),
    {
        if 1 <= num && num <= RATIO_LIMIT && 1 <= den && den <= RATIO_LIMIT {
            Some(Ratio { num, den })
        } else {
            None
        }
    }
}

/// Width of the whole map, in pixels.
pub const MAP_WIDTH: u32 = 6256;

/// Height of the whole map, in pixels.
pub const MAP_HEIGHT: u32 = 3648;

/// An axis-aligned rectangle of whole pixels in map coordinates.
#[derive(Clone, Copy, Debug, PartialEq, Eq, Structural)]
pub struct PixelRect {
    pub x: u32,
    pub y: u32,
    pub width: u32,
    pub height: u32,
}

impl PixelRect {
    /// The rectangle lies entirely inside the map.
    pub open spec fn in_map(self) -> bool {
        &&& self.x + self.width <= MAP_WIDTH
        &&& self.y + self.height <= MAP_HEIGHT
    }

    /// The rectangle covering the whole map.
    pub fn full_map() -> (r: PixelRect)
        ensures
            r == (PixelRect { x: 0u32, y: 0u32, width: MAP_WIDTH, height: MAP_HEIGHT }),
    {
        PixelRect { x: 0, y: 0, width: MAP_WIDTH, height: MAP_HEIGHT }
    }
}

/// An exact rational rectangle: each side of `x = xn/den`, `y = yn/den`,
/// `width = wn/den`, `height = hn/den` is a fraction over the common positive
/// denominator `den`. The width and height are positive; `x` and `y` may be
/// negative before clamping.
#[derive(Clone, Copy, Debug, PartialEq, Eq, Structural)]
pub struct FracRect {
    pub xn: i64,
    pub yn: i64,
    pub wn: i64,
    pub hn: i64,
    pub den: i64,
}

impl FracRect {
    pub open spec fn wf(self) -> bool {
        &&& self.den >= 1
        &&& self.wn >= 1
        &&& self.hn >= 1
    }
}

/// The clamped integer rectangle that `fit_view_box` returns: width and
/// height are the fractional sides rounded down and capped at the map size,
/// and the corner slides inward so the whole rectangle stays on the map.
pub open spec fn spec_fit_view_box(b: FracRect) -> PixelRect {
    let w = if b.wn / b.den >= MAP_WIDTH { MAP_WIDTH as int } else { b.wn / b.den };
    let h = if b.hn / b.den >= MAP_HEIGHT { MAP_HEIGHT as int } else { b.hn / b.den };
    let xmax = MAP_WIDTH - w;
    let ymax = MAP_HEIGHT - h;
    let x = if b.xn < 0 { 0int } else if b.xn / b.den >= xmax { xmax } else { b.xn / b.den };
    let y = if b.yn < 0 { 0int } else if b.yn / b.den >= ymax { ymax } else { b.yn / b.den };
    PixelRect { x: x as u32, y: y as u32, width: w as u32, height: h as u32 }
}

/// Clamp an ideal fractional rectangle to the map: the width and height are
/// kept (rounded down) unless they exceed the map size, and a corner that
/// would fall off the map slides inward rather than truncating the size.
pub fn fit_view_box(bbox: &FracRect) -> (r: PixelRect)
    requires
        bbox.wf(),
    ensures
        r == spec_fit_view_box(*bbox),
        r.in_map(),
        r.x + r.width <= MAP_WIDTH,
        r.y + r.height <= MAP_HEIGHT,
        r.width == if bbox.wn / bbox.den >= MAP_WIDTH { MAP_WIDTH as int } else {
            bbox.wn / bbox.den
        },
        r.height == if bbox.hn / bbox.den >= MAP_HEIGHT { MAP_HEIGHT as int } else {
            bbox.hn / bbox.den
        },
{
    let den: u64 = bbox.den as u64;
    let wq: u64 = (bbox.wn as u64) / den;
    let width: u32 = if wq >= MAP_WIDTH as u64 { MAP_WIDTH } else { wq as u32 };
    let hq: u64 = (bbox.hn as u64) / den;
    let height: u32 = if hq >= MAP_HEIGHT as u64 { MAP_HEIGHT } else { hq as u32 };
    let xmax: u32 = MAP_WIDTH - width;
    let ymax: u32 = MAP_HEIGHT - height;
    let x: u32 = if bbox.xn < 0 {
        0
    } else {
        let xq: u64 = (bbox.xn as u64) / den;
        if xq >= xmax as u64 { xmax } else { xq as u32 }
    };
    let y: u32 = if bbox.yn < 0 {
        0
    } else {
        let yq: u64 = (bbox.yn as u64) / den;
        if yq >= ymax as u64 { ymax } else { yq as u32 }
    };
    PixelRect { x, y, width, height }
}

/// The box `b` is wider, relative to its height, than the target aspect
/// ratio `ar` (compared exactly by cross-multiplication).
pub open spec fn wider_than(b: Bounds, ar: Ratio) -> bool {
    b.width * ar.den > ar.num * b.height
}

/// The candidate view rectangle for a bounding box `b`, zoom factor `f` and
/// aspect ratio `ar`, as exact fractions over the common denominator:
/// the box's larger-relative dimension is divided by `f`, the other
/// dimension is derived from `ar`, and the rectangle is re-centred on the
/// box. In the wide case `width = b.width / f`, `height = width / ar`,
/// `x = b.x - width * (1 - f) / 2`, `y = b.y - (height - b.height) / 2`;
/// the narrow case is symmetric.
pub open spec fn spec_fit_formula(b: Bounds, f: Ratio, ar: Ratio, r: FracRect) -> bool {
    if wider_than(b, ar) {
        &&& r.den == 2 * f.num * ar.num
        &&& r.wn == 2 * (ar.num * b.width) * f.den
        &&& r.hn == 2 * (b.width * f.den) * ar.den
        &&& r.xn == (2 * f.num * ar.num) * b.x - (ar.num * b.width) * (f.den - f.num)
        &&& r.yn == (2 * f.num * ar.num) * b.y - ((b.width * f.den) * ar.den - (b.height
            * f.num) * ar.num)
    } else {
        &&& r.den == 2 * f.num * ar.den
        &&& r.hn == 2 * (ar.den * b.height) * f.den
        &&& r.wn == 2 * (b.height * f.den) * ar.num
        &&& r.yn == (2 * f.num * ar.den) * b.y - (ar.den * b.height) * (f.den - f.num)
        &&& r.xn == (2 * f.num * ar.den) * b.x - ((b.height * f.den) * ar.num - (b.width
            * f.num) * ar.den)
    }
}

/// Compute the candidate view rectangle for a path: take the path's tight
/// bounding box, divide its dominant dimension by the zoom factor `factor`,
/// derive the other dimension from the aspect ratio `ar`, and centre the
/// result on the box. The result is exact; clamping to the map is left to
/// `fit_view_box`.
pub fn bbox_for_path(path: &TerritoryPath, factor: &Ratio, ar: &Ratio) -> (r: FracRect)
    requires
        path.wf(),
        factor.wf(),
        ar.wf(),
        !path.degenerate(),
    ensures
        r.wf(),
        spec_fit_formula(spec_bounds(path_points(path.segments_seq())), *factor, *ar, r),
{
    let b = path.bounds();
    let bx: i64 = b.x;
    let by: i64 = b.y;
    let bw: i64 = b.width;
    let bh: i64 = b.height;
    let fnum: i64 = factor.num as i64;
    let fden: i64 = factor.den as i64;
    let anum: i64 = ar.num as i64;
    let aden: i64 = ar.den as i64;
    let diff: i64 = fden - fnum;
    assert(0 <= bw * aden <= 200_000_000_000i64 && 0 <= anum * bh <= 200_000_000_000i64)
        by (nonlinear_arith)
        requires
            0 <= bw <= 200_000,
            0 <= bh <= 200_000,
            1 <= anum <= 1_000_000,
            1 <= aden <= 1_000_000,
    ;
    if bw * aden > anum * bh {
        // The box is wider than the target: width is the dominant dimension.
        assert(bw >= 1) by (nonlinear_arith)
            requires
                bw * aden > anum * bh,
                0 <= anum * bh,
                1 <= aden,
                0 <= bw,
        ;
        assert(1 <= fnum * anum <= 1_000_000_000_000i64) by (nonlinear_arith)
            requires
                1 <= fnum <= 1_000_000,
                1 <= anum <= 1_000_000,
        ;
        let t_fa: i64 = fnum * anum;
        let den: i64 = 2 * t_fa;
        assert(1 <= anum * bw <= 200_000_000_000i64) by (nonlinear_arith)
            requires
                1 <= bw <= 200_000,
                1 <= anum <= 1_000_000,
        ;
        let t_ab: i64 = anum * bw;
        assert(1 <= bw * fden <= 200_000_000_000i64) by (nonlinear_arith)
            requires
                1 <= bw <= 200_000,
                1 <= fden <= 1_000_000,
        ;
        let t_wf: i64 = bw * fden;
        assert(1 <= t_ab * fden <= 200_000_000_000_000_000i64) by (nonlinear_arith)
            requires
                1 <= t_ab <= 200_000_000_000i64,
                1 <= fden <= 1_000_000,
        ;
        let t_abf: i64 = t_ab * fden;
        let wn: i64 = 2 * t_abf;
        assert(1 <= t_wf * aden <= 200_000_000_000_000_000i64) by (nonlinear_arith)
            requires
                1 <= t_wf <= 200_000_000_000i64,
                1 <= aden <= 1_000_000,
        ;
        let t_wfa: i64 = t_wf * aden;
        let hn: i64 = 2 * t_wfa;
        assert(-200_000_000_000_000_000i64 <= den * bx <= 200_000_000_000_000_000i64
            && -200_000_000_000_000_000i64 <= den * by <= 200_000_000_000_000_000i64)
            by (nonlinear_arith)
            requires
                2 <= den <= 2_000_000_000_000i64,
                -100_000 <= bx <= 100_000,
                -100_000 <= by <= 100_000,
        ;
        let t_dx: i64 = den * bx;
        let t_dy: i64 = den * by;
        assert(-200_000_000_000_000_000i64 <= t_ab * diff <= 200_000_000_000_000_000i64)
            by (nonlinear_arith)
            requires
                1 <= t_ab <= 200_000_000_000i64,
                -1_000_000 <= diff <= 1_000_000,
        ;
        let t_spread: i64 = t_ab * diff;
        let xn: i64 = t_dx - t_spread;
        assert(0 <= bh * fnum <= 200_000_000_000i64) by (nonlinear_arith)
            requires
                0 <= bh <= 200_000,
                1 <= fnum <= 1_000_000,
        ;
        let t_hf: i64 = bh * fnum;
        assert(0 <= t_hf * anum <= 200_000_000_000_000_000i64) by (nonlinear_arith)
            requires
                0 <= t_hf <= 200_000_000_000i64,
                1 <= anum <= 1_000_000,
        ;
        let t_hfa: i64 = t_hf * anum;
        let yn: i64 = t_dy - (t_wfa - t_hfa);
        proof {
            assert(den == 2 * fnum * anum) by (nonlinear_arith)
                requires
                    den == 2 * t_fa,
                    t_fa == fnum * anum,
            ;
            assert(wn == 2 * (anum * bw) * fden) by (nonlinear_arith)
                requires
                    wn == 2 * t_abf,
                    t_abf == t_ab * fden,
                    t_ab == anum * bw,
            ;
            assert(hn == 2 * (bw * fden) * aden) by (nonlinear_arith)
                requires
                    hn == 2 * t_wfa,
                    t_wfa == t_wf * aden,
                    t_wf == bw * fden,
            ;
            assert(xn == (2 * fnum * anum) * bx - (anum * bw) * (fden - fnum))
                by (nonlinear_arith)
                requires
                    xn == t_dx - t_spread,
                    t_dx == den * bx,
                    den == 2 * t_fa,
                    t_fa == fnum * anum,
                    t_spread == t_ab * diff,
                    t_ab == anum * bw,
                    diff == fden - fnum,
            ;
            assert(yn == (2 * fnum * anum) * by - ((bw * fden) * aden - (bh * fnum) * anum))
                by (nonlinear_arith)
                requires
                    yn == t_dy - (t_wfa - t_hfa),
                    t_dy == den * by,
                    den == 2 * t_fa,
                    t_fa == fnum * anum,
                    t_wfa == t_wf * aden,
                    t_wf == bw * fden,
                    t_hfa == t_hf * anum,
                    t_hf == bh * fnum,
            ;
        }
        FracRect { xn, yn, wn, hn, den }
    } else {
        // The box is at most as wide as the target: height dominates. The
        // non-degeneracy requirement rules out a zero-height box here.
        assert(bh >= 1) by {
            if bh == 0 {
                assert(bw == 0) by (nonlinear_arith)
                    requires
                        bw * aden <= anum * bh,
                        bh == 0,
                        0 <= bw,
                        1 <= aden,
                        1 <= anum,
                ;
                assert(b.width == 0 && b.height == 0);
            }
        }
        assert(1 <= fnum * aden <= 1_000_000_000_000i64) by (nonlinear_arith)
            requires
                1 <= fnum <= 1_000_000,
                1 <= aden <= 1_000_000,
        ;
        let t_fa: i64 = fnum * aden;
        let den: i64 = 2 * t_fa;
        assert(1 <= aden * bh <= 200_000_000_000i64) by (nonlinear_arith)
            requires
                1 <= bh <= 200_000,
                1 <= aden <= 1_000_000,
        ;
        let t_ab: i64 = aden * bh;
        assert(1 <= bh * fden <= 200_000_000_000i64) by (nonlinear_arith)
            requires
                1 <= bh <= 200_000,
                1 <= fden <= 1_000_000,
        ;
        let t_hf: i64 = bh * fden;
        assert(1 <= t_ab * fden <= 200_000_000_000_000_000i64) by (nonlinear_arith)
            requires
                1 <= t_ab <= 200_000_000_000i64,
                1 <= fden <= 1_000_000,
        ;
        let t_abf: i64 = t_ab * fden;
        let hn: i64 = 2 * t_abf;
        assert(1 <= t_hf * anum <= 200_000_000_000_000_000i64) by (nonlinear_arith)
            requires
                1 <= t_hf <= 200_000_000_000i64,
                1 <= anum <= 1_000_000,
        ;
        let t_hfa: i64 = t_hf * anum;
        let wn: i64 = 2 * t_hfa;
        assert(-200_000_000_000_000_000i64 <= den * bx <= 200_000_000_000_000_000i64
            && -200_000_000_000_000_000i64 <= den * by <= 200_000_000_000_000_000i64)
            by (nonlinear_arith)
            requires
                2 <= den <= 2_000_000_000_000i64,
                -100_000 <= bx <= 100_000,
                -100_000 <= by <= 100_000,
        ;
        let t_dx: i64 = den * bx;
        let t_dy: i64 = den * by;
        assert(-200_000_000_000_000_000i64 <= t_ab * diff <= 200_000_000_000_000_000i64)
            by (nonlinear_arith)
            requires
                1 <= t_ab <= 200_000_000_000i64,
                -1_000_000 <= diff <= 1_000_000,
        ;
        let t_spread: i64 = t_ab * diff;
        let yn: i64 = t_dy - t_spread;
        assert(0 <= bw * fnum <= 200_000_000_000i64) by (nonlinear_arith)
            requires
                0 <= bw <= 200_000,
                1 <= fnum <= 1_000_000,
        ;
        let t_wf: i64 = bw * fnum;
        assert(0 <= t_wf * aden <= 200_000_000_000_000_000i64) by (nonlinear_arith)
            requires
                0 <= t_wf <= 200_000_000_000i64,
                1 <= aden <= 1_000_000,
        ;
        let t_wfa: i64 = t_wf * aden;
        let xn: i64 = t_dx - (t_hfa - t_wfa);
        proof {
            assert(den == 2 * fnum * aden) by (nonlinear_arith)
                requires
                    den == 2 * t_fa,
                    t_fa == fnum * aden,
            ;
            assert(hn == 2 * (aden * bh) * fden) by (nonlinear_arith)
                requires
                    hn == 2 * t_abf,
                    t_abf == t_ab * fden,
                    t_ab == aden * bh,
            ;
            assert(wn == 2 * (bh * fden) * anum) by (nonlinear_arith)
                requires
                    wn == 2 * t_hfa,
                    t_hfa == t_hf * anum,
                    t_hf == bh * fden,
            ;
            assert(yn == (2 * fnum * aden) * by - (aden * bh) * (fden - fnum))
                by (nonlinear_arith)
                requires
                    yn == t_dy - t_spread,
                    t_dy == den * by,
                    den == 2 * t_fa,
                    t_fa == fnum * aden,
                    t_spread == t_ab * diff,
                    t_ab == aden * bh,
                    diff == fden - fnum,
            ;
            assert(xn == (2 * fnum * aden) * bx - ((bh * fden) * anum - (bw * fnum) * aden))
                by (nonlinear_arith)
                requires
                    xn == t_dx - (t_hfa - t_wfa),
                    t_dx == den * bx,
                    den == 2 * t_fa,
                    t_fa == fnum * aden,
                    t_hfa == t_hf * anum,
                    t_hf == bh * fden,
                    t_wfa == t_wf * aden,
                    t_wf == bw * fnum,
            ;
        }
        FracRect { xn, yn, wn, hn, den }
    }
}

/// The pixel viewport of a territory view: the whole map in whole-map
/// mode, else the candidate rectangle for the territory's bounds, clamped
/// into the map.
pub fn territory_view_box(
    path: &TerritoryPath,
    whole_map: bool,
    factor: &Ratio,
    ar: &Ratio,
) -> (r: PixelRect)
    requires
        path.wf(),
        !path.degenerate(),
        factor.wf(),
        ar.wf(),
    ensures
        whole_map ==> r == (PixelRect { x: 0u32, y: 0u32, width: MAP_WIDTH, height: MAP_HEIGHT }),
        !whole_map ==> exists|fr: FracRect|
            {
                &&& #[trigger] spec_fit_formula(
                    spec_bounds(path_points(path.segments_seq())),
                    *factor,
                    *ar,
                    fr,
                )
                &&& fr.wf()
                &&& r == spec_fit_view_box(fr)
            },
        r.in_map(),
{
    if whole_map {
        PixelRect::full_map()
    } else {
        let fr = bbox_for_path(path, factor, ar);
        let r = fit_view_box(&fr);
        proof {
            assert(spec_fit_formula(
                spec_bounds(path_points(path.segments_seq())),
                *factor,
                *ar,
                fr,
            ) && fr.wf() && r == spec_fit_view_box(fr));
        }
        r
    }
}

/// Resolve one axis of a map-segment selection, given either the far edge
/// or the length: the length wins when both are given; a far edge before
/// the start, or neither value, is rejected.
pub fn resolve_span(start: u32, end: Option<u32>, length: Option<u32>) -> (r: Option<u32>)
    ensures
        length matches Some(l) ==> r == Some(l),
        length is None && end is Some && end->Some_0 >= start ==> r == Some(
            (end->Some_0 - start) as u32,
        ),
        length is None && end is Some && end->Some_0 < start ==> r is None,
        length is None && end is None ==> r is None,
{
    match (length, end) {
        (Some(l), _) => Some(l),
        (None, Some(e)) => if e >= start {
            Some(e - start)
        } else {
            None
        },
        (None, None) => None,
    }
}

} // verus!
