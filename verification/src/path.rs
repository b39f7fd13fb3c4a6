//! Territory outline geometry: path-segment instructions, path
//! reconstruction and bounding-box computation, all in whole map-pixel
//! coordinates.

use vstd::prelude::*;

use crate::territory::{lemma_lookup_total, Registry, TerritoryId};

verus! {

/// Every coordinate of a stored path lies within this bound, which keeps all
/// later bounding-box and viewport arithmetic inside machine integers.
pub const COORD_LIMIT: i64 = 100_000;

/// One path-segment instruction, with coordinates in map-pixel space.
#[derive(Clone, Copy, Debug, PartialEq, Eq, Structural)]
pub enum PathSegment {
    MoveTo { x: i64, y: i64 },
    LineTo { x: i64, y: i64 },
    Quadratic { x1: i64, y1: i64, x: i64, y: i64 },
    CurveTo { x1: i64, y1: i64, x2: i64, y2: i64, x: i64, y: i64 },
    ClosePath,
}

/// The points (end points and control points) that a segment contributes to
/// the path's bounds.
pub open spec fn seg_points(seg: PathSegment) -> Seq<(i64, i64)> {
    match seg {
        PathSegment::MoveTo { x, y } => seq![(x, y)],
        PathSegment::LineTo { x, y } => seq![(x, y)],
        PathSegment::Quadratic { x1, y1, x, y } => seq![(x1, y1), (x, y)],
        PathSegment::CurveTo { x1, y1, x2, y2, x, y } => seq![(x1, y1), (x2, y2), (x, y)],
        PathSegment::ClosePath => seq![],
    }
}

/// All coordinates of a segment are within `COORD_LIMIT`.
pub open spec fn seg_in_range(seg: PathSegment) -> bool {
    forall|i: int|
        0 <= i < seg_points(seg).len() ==> {
            let p = #[trigger] seg_points(seg)[i];
            -COORD_LIMIT <= p.0 <= COORD_LIMIT && -COORD_LIMIT <= p.1 <= COORD_LIMIT
        }
}

/// All points of a segment sequence, in order.
pub open spec fn path_points(segs: Seq<PathSegment>) -> Seq<(i64, i64)>
    decreases segs.len(),
{
    if segs.len() == 0 {
        seq![]
    } else {
        path_points(segs.drop_last()) + seg_points(segs.last())
    }
}

/// A well-formed segment sequence: non-empty, started with a move, and with
/// every coordinate within `COORD_LIMIT`.
pub open spec fn valid_segments(segs: Seq<PathSegment>) -> bool {
    &&& segs.len() > 0
    &&& segs[0] is MoveTo
    &&& forall|i: int| 0 <= i < segs.len() ==> seg_in_range(#[trigger] segs[i])
}

/// The segments describe a single repeated point (or no point at all), so
/// their bounding box would have neither width nor height.
pub open spec fn degenerate_points(segs: Seq<PathSegment>) -> bool {
    forall|i: int, j: int|
        0 <= i < path_points(segs).len() && 0 <= j < path_points(segs).len()
            ==> #[trigger] path_points(segs)[i] == #[trigger] path_points(segs)[j]
}

/// A reconstructed vector path: a validated segment sequence usable for
/// bounds queries and rendering.
#[derive(Clone, Debug)]
pub struct TerritoryPath {
    segments: Vec<PathSegment>,
}

/// The tight bounding box of a path's points, in map-pixel coordinates.
#[derive(Clone, Copy, Debug, PartialEq, Eq, Structural)]
pub struct Bounds {
    pub x: i64,
    pub y: i64,
    pub width: i64,
    pub height: i64,
}

impl Bounds {
    /// `b` is the bounding box of the point sequence `pts`: it touches the
    /// extremes of `pts` in both axes and contains every point.
    pub open spec fn is_bounds_of(self, pts: Seq<(i64, i64)>) -> bool {
        &&& (forall|i: int|
            0 <= i < pts.len() ==> {
                let p = #[trigger] pts[i];
                self.x <= p.0 <= self.x + self.width && self.y <= p.1 <= self.y + self.height
            })
        &&& (exists|i: int| 0 <= i < pts.len() && (#[trigger] pts[i]).0 == self.x)
        &&& (exists|i: int| 0 <= i < pts.len() && (#[trigger] pts[i]).0 == self.x + self.width)
        &&& (exists|i: int| 0 <= i < pts.len() && (#[trigger] pts[i]).1 == self.y)
        &&& (exists|i: int| 0 <= i < pts.len() && (#[trigger] pts[i]).1 == self.y + self.height)
    }
}

/// The bounding box of a point sequence, as a value: the unique `Bounds`
/// satisfying `is_bounds_of` (unique by `lemma_bounds_unique`).
pub open spec fn spec_bounds(pts: Seq<(i64, i64)>) -> Bounds {
    choose|b: Bounds| b.is_bounds_of(pts)
}

/// Two bounding boxes of the same points are equal.
pub proof fn lemma_bounds_unique(a: Bounds, b: Bounds, pts: Seq<(i64, i64)>)
    requires
        a.is_bounds_of(pts),
        b.is_bounds_of(pts),
    ensures
        a == b,
{
    let ax = choose|i: int| 0 <= i < pts.len() && (#[trigger] pts[i]).0 == a.x;
    let bx = choose|i: int| 0 <= i < pts.len() && (#[trigger] pts[i]).0 == b.x;
    let aw = choose|i: int| 0 <= i < pts.len() && (#[trigger] pts[i]).0 == a.x + a.width;
    let bw = choose|i: int| 0 <= i < pts.len() && (#[trigger] pts[i]).0 == b.x + b.width;
    let ay = choose|i: int| 0 <= i < pts.len() && (#[trigger] pts[i]).1 == a.y;
    let by = choose|i: int| 0 <= i < pts.len() && (#[trigger] pts[i]).1 == b.y;
    let ah = choose|i: int| 0 <= i < pts.len() && (#[trigger] pts[i]).1 == a.y + a.height;
    let bh = choose|i: int| 0 <= i < pts.len() && (#[trigger] pts[i]).1 == b.y + b.height;
    assert(pts[ax].0 >= b.x && pts[bx].0 >= a.x);
    assert(pts[aw].0 <= b.x + b.width && pts[bw].0 <= a.x + a.width);
    assert(pts[ay].1 >= b.y && pts[by].1 >= a.y);
    assert(pts[ah].1 <= b.y + b.height && pts[bh].1 <= a.y + a.height);
}

impl TerritoryPath {
    pub closed spec fn segments_seq(self) -> Seq<PathSegment> {
        self.segments@
    }

    pub open spec fn wf(self) -> bool {
        valid_segments(self.segments_seq())
    }

    /// The path consists of a single repeated point, so its bounding box has
    /// neither width nor height.
    pub open spec fn degenerate(self) -> bool {
        degenerate_points(self.segments_seq())
    }

    /// The number of segment instructions in the path.
    pub fn len(&self) -> (n: usize)
        ensures
            n == self.segments_seq().len(),
    {
        self.segments.len()
    }

    /// The segment instruction at position `i`.
    pub fn segment(&self, i: usize) -> (seg: PathSegment)
        requires
            i < self.segments_seq().len(),
        ensures
            seg == self.segments_seq()[i as int],
    {
        self.segments[i]
    }

    /// The tight bounding box over all points (control points included) of
    /// the path.
    pub fn bounds(&self) -> (r: Bounds)
        requires
            self.wf(),
        ensures
            r.is_bounds_of(path_points(self.segments_seq())),
            r == spec_bounds(path_points(self.segments_seq())),
            -COORD_LIMIT <= r.x <= COORD_LIMIT,
            -COORD_LIMIT <= r.y <= COORD_LIMIT,
            0 <= r.width <= 2 * COORD_LIMIT,
            0 <= r.height <= 2 * COORD_LIMIT,
            -COORD_LIMIT <= r.x + r.width <= COORD_LIMIT,
            -COORD_LIMIT <= r.y + r.height <= COORD_LIMIT,
            r.width == 0 && r.height == 0 <==> self.degenerate(),
    {
        let ghost segs = self.segments_seq();
        let (mut minx, mut miny): (i64, i64) = match &self.segments[0] {
            PathSegment::MoveTo { x, y } => (*x, *y),
            _ => { proof { assert(false); } (0, 0) },
        };
        let mut maxx: i64 = minx;
        let mut maxy: i64 = miny;
        proof {
            lemma_path_points_step(segs, 0);
            assert(segs.subrange(0, 0) =~= Seq::<PathSegment>::empty());
            assert(path_points(Seq::<PathSegment>::empty()) =~= Seq::<(i64, i64)>::empty());
            assert(path_points(segs.subrange(0, 1)) =~= seg_points(segs[0]));
            assert(seg_points(segs[0])[0] == (minx, miny));
            assert(seg_in_range(segs[0]));
        }
        let mut i: usize = 1;
        while i < self.segments.len()
            invariant
                1 <= i <= segs.len(),
                segs == self.segments@,
                valid_segments(segs),
                exact_range(minx as int, maxx as int, miny as int, maxy as int,
                    path_points(segs.subrange(0, i as int))),
                -COORD_LIMIT <= minx <= maxx <= COORD_LIMIT,
                -COORD_LIMIT <= miny <= maxy <= COORD_LIMIT,
            decreases segs.len() - i,
        {
            let pl = seg_point_list(&self.segments[i]);
            let ghost done = path_points(segs.subrange(0, i as int));
            let mut j: usize = 0;
            while j < pl.len()
                invariant
                    0 <= j <= pl@.len(),
                    pl@ == seg_points(segs[i as int]),
                    0 <= i < segs.len(),
                    valid_segments(segs),
                    done == path_points(segs.subrange(0, i as int)),
                    exact_range(minx as int, maxx as int, miny as int, maxy as int,
                        done + pl@.subrange(0, j as int)),
                    -COORD_LIMIT <= minx <= maxx <= COORD_LIMIT,
                    -COORD_LIMIT <= miny <= maxy <= COORD_LIMIT,
                decreases pl@.len() - j,
            {
                let ghost before = done + pl@.subrange(0, j as int);
                let p = pl[j];
                proof {
                    assert(seg_in_range(segs[i as int]));
                    assert(seg_points(segs[i as int])[j as int] == p);
                    assert(-COORD_LIMIT <= p.0 <= COORD_LIMIT && -COORD_LIMIT <= p.1 <= COORD_LIMIT);
                }
                if p.0 < minx {
                    minx = p.0;
                }
                if p.0 > maxx {
                    maxx = p.0;
                }
                if p.1 < miny {
                    miny = p.1;
                }
                if p.1 > maxy {
                    maxy = p.1;
                }
                proof {
                    let after = done + pl@.subrange(0, j + 1);
                    assert(after =~= before.push(p));
                    assert forall|k: int| 0 <= k < after.len() implies {
                        let q = #[trigger] after[k];
                        minx <= q.0 <= maxx && miny <= q.1 <= maxy
                    } by {
                        if k < before.len() {
                            assert(after[k] == before[k]);
                        } else {
                            assert(after[k] == p);
                        }
                    }
                    assert(exists|k: int|
                        0 <= k < after.len() && (#[trigger] after[k]).0 == minx) by {
                        if p.0 == minx {
                            assert(after[after.len() - 1] == p);
                        } else {
                            let w = choose|k: int|
                                0 <= k < before.len() && (#[trigger] before[k]).0 == minx;
                            assert(after[w] == before[w]);
                        }
                    }
                    assert(exists|k: int|
                        0 <= k < after.len() && (#[trigger] after[k]).0 == maxx) by {
                        if p.0 == maxx {
                            assert(after[after.len() - 1] == p);
                        } else {
                            let w = choose|k: int|
                                0 <= k < before.len() && (#[trigger] before[k]).0 == maxx;
                            assert(after[w] == before[w]);
                        }
                    }
                    assert(exists|k: int|
                        0 <= k < after.len() && (#[trigger] after[k]).1 == miny) by {
                        if p.1 == miny {
                            assert(after[after.len() - 1] == p);
                        } else {
                            let w = choose|k: int|
                                0 <= k < before.len() && (#[trigger] before[k]).1 == miny;
                            assert(after[w] == before[w]);
                        }
                    }
                    assert(exists|k: int|
                        0 <= k < after.len() && (#[trigger] after[k]).1 == maxy) by {
                        if p.1 == maxy {
                            assert(after[after.len() - 1] == p);
                        } else {
                            let w = choose|k: int|
                                0 <= k < before.len() && (#[trigger] before[k]).1 == maxy;
                            assert(after[w] == before[w]);
                        }
                    }
                }
                j += 1;
            }
            proof {
                lemma_path_points_step(segs, i as int);
                assert(pl@.subrange(0, pl@.len() as int) =~= pl@);
                assert(done + pl@ == path_points(segs.subrange(0, i + 1)));
            }
            i += 1;
        }
        proof {
            assert(segs.subrange(0, segs.len() as int) =~= segs);
        }
        let r = Bounds { x: minx, y: miny, width: maxx - minx, height: maxy - miny };
        proof {
            let pts = path_points(segs);
            assert(r.is_bounds_of(pts));
            lemma_bounds_unique(r, spec_bounds(pts), pts);
            if r.width == 0 && r.height == 0 {
                assert forall|a: int, b: int|
                    0 <= a < pts.len() && 0 <= b < pts.len() implies #[trigger] pts[a]
                    == #[trigger] pts[b] by {
                    assert(pts[a].0 == minx && pts[a].1 == miny);
                    assert(pts[b].0 == minx && pts[b].1 == miny);
                }
            }
            if self.degenerate() {
                let wa = choose|k: int| 0 <= k < pts.len() && (#[trigger] pts[k]).0 == minx;
                let wb = choose|k: int| 0 <= k < pts.len() && (#[trigger] pts[k]).0 == maxx;
                assert(pts[wa] == pts[wb]);
                let wc = choose|k: int| 0 <= k < pts.len() && (#[trigger] pts[k]).1 == miny;
                let wd = choose|k: int| 0 <= k < pts.len() && (#[trigger] pts[k]).1 == maxy;
                assert(pts[wc] == pts[wd]);
            }
        }
        r
    }
}

/// The extremes `minx ..= maxx` and `miny ..= maxy` are exactly the range of
/// the points `pts`: every point lies within them and each is attained.
pub open spec fn exact_range(minx: int, maxx: int, miny: int, maxy: int, pts: Seq<(i64, i64)>) -> bool {
    &&& (forall|i: int|
        0 <= i < pts.len() ==> {
            let p = #[trigger] pts[i];
            minx <= p.0 <= maxx && miny <= p.1 <= maxy
        })
    &&& (exists|i: int| 0 <= i < pts.len() && (#[trigger] pts[i]).0 == minx)
    &&& (exists|i: int| 0 <= i < pts.len() && (#[trigger] pts[i]).0 == maxx)
    &&& (exists|i: int| 0 <= i < pts.len() && (#[trigger] pts[i]).1 == miny)
    &&& (exists|i: int| 0 <= i < pts.len() && (#[trigger] pts[i]).1 == maxy)
}

/// Splitting off the last segment splits the point sequence.
proof fn lemma_path_points_step(segs: Seq<PathSegment>, i: int)
    requires
        0 <= i < segs.len(),
    ensures
        path_points(segs.subrange(0, i + 1)) == path_points(segs.subrange(0, i)) + seg_points(
            segs[i],
        ),
{
    let pre = segs.subrange(0, i + 1);
    assert(pre.drop_last() =~= segs.subrange(0, i));
    assert(pre.last() == segs[i]);
}

/// A prefix of the segments contributes a prefix of the points.
proof fn lemma_path_points_prefix(segs: Seq<PathSegment>, m: int)
    requires
        0 <= m <= segs.len(),
    ensures
        path_points(segs.subrange(0, m)).len() <= path_points(segs).len(),
        forall|k: int|
            0 <= k < path_points(segs.subrange(0, m)).len() ==> #[trigger] path_points(segs)[k]
                == path_points(segs.subrange(0, m))[k],
    decreases segs.len() - m,
{
    if m == segs.len() {
        assert(segs.subrange(0, m) =~= segs);
    } else {
        lemma_path_points_step(segs, m);
        lemma_path_points_prefix(segs, m + 1);
    }
}

/// A path whose first two points differ is not degenerate.
pub proof fn lemma_not_degenerate(segs: Seq<PathSegment>)
    requires
        segs.len() >= 2,
        seg_points(segs[0]).len() == 1,
        seg_points(segs[1]).len() >= 1,
        seg_points(segs[0])[0] != seg_points(segs[1])[0],
    ensures
        !degenerate_points(segs),
{
    lemma_path_points_step(segs, 0);
    lemma_path_points_step(segs, 1);
    assert(segs.subrange(0, 0) =~= Seq::<PathSegment>::empty());
    assert(path_points(Seq::<PathSegment>::empty()) =~= Seq::<(i64, i64)>::empty());
    let p2 = path_points(segs.subrange(0, 2));
    assert(p2 =~= seg_points(segs[0]) + seg_points(segs[1]));
    assert(p2[0] == seg_points(segs[0])[0]);
    assert(p2[1] == seg_points(segs[1])[0]);
    lemma_path_points_prefix(segs, 2);
    assert(path_points(segs)[0] != path_points(segs)[1]);
}

/// A path that was started with a move contributes at least that one point.
proof fn lemma_path_points_nonempty(segs: Seq<PathSegment>)
    requires
        segs.len() > 0,
        segs[0] is MoveTo,
    ensures
        path_points(segs).len() > 0,
    decreases segs.len(),
{
    if segs.len() == 1 {
        assert(path_points(segs) == path_points(segs.drop_last()) + seg_points(segs.last()));
    } else {
        lemma_path_points_nonempty(segs.drop_last());
    }
}

/// The points of one segment, as a vector.
fn seg_point_list(seg: &PathSegment) -> (v: Vec<(i64, i64)>)
    ensures
        v@ == seg_points(*seg),
{
    match seg {
        PathSegment::MoveTo { x, y } => {
            let v = vec![(*x, *y)];
            assert(v@ =~= seg_points(*seg));
            v
        },
        PathSegment::LineTo { x, y } => {
            let v = vec![(*x, *y)];
            assert(v@ =~= seg_points(*seg));
            v
        },
        PathSegment::Quadratic { x1, y1, x, y } => {
            let v = vec![(*x1, *y1), (*x, *y)];
            assert(v@ =~= seg_points(*seg));
            v
        },
        PathSegment::CurveTo { x1, y1, x2, y2, x, y } => {
            let v = vec![(*x1, *y1), (*x2, *y2), (*x, *y)];
            assert(v@ =~= seg_points(*seg));
            v
        },
        PathSegment::ClosePath => {
            let v = Vec::new();
            assert(v@ =~= seg_points(*seg));
            v
        },
    }
}

/// Check one segment's coordinates against `COORD_LIMIT`.
fn check_seg_in_range(seg: &PathSegment) -> (ok: bool)
    ensures
        ok == seg_in_range(*seg),
{
    let within = |v: i64| -> (r: bool)
        ensures
            r == (-COORD_LIMIT <= v <= COORD_LIMIT),
        { -COORD_LIMIT <= v && v <= COORD_LIMIT };
    match seg {
        PathSegment::MoveTo { x, y } => {
            let ok = within(*x) && within(*y);
            assert(ok == seg_in_range(*seg)) by {
                assert(seg_points(*seg)[0] == (*x, *y));
            }
            ok
        },
        PathSegment::LineTo { x, y } => {
            let ok = within(*x) && within(*y);
            assert(ok == seg_in_range(*seg)) by {
                assert(seg_points(*seg)[0] == (*x, *y));
            }
            ok
        },
        PathSegment::Quadratic { x1, y1, x, y } => {
            let ok = within(*x1) && within(*y1) && within(*x) && within(*y);
            assert(ok == seg_in_range(*seg)) by {
                assert(seg_points(*seg)[0] == (*x1, *y1));
                assert(seg_points(*seg)[1] == (*x, *y));
            }
            ok
        },
        PathSegment::CurveTo { x1, y1, x2, y2, x, y } => {
            let ok = within(*x1) && within(*y1) && within(*x2) && within(*y2) && within(*x)
                && within(*y);
            assert(ok == seg_in_range(*seg)) by {
                assert(seg_points(*seg)[0] == (*x1, *y1));
                assert(seg_points(*seg)[1] == (*x2, *y2));
                assert(seg_points(*seg)[2] == (*x, *y));
            }
            ok
        },
        PathSegment::ClosePath => true,
    }
}

/// Check a whole segment sequence for well-formedness: non-empty, started
/// with a move, all coordinates within `COORD_LIMIT`.
pub fn check_segments(segments: &Vec<PathSegment>) -> (ok: bool)
    ensures
        ok == valid_segments(segments@),
{
    if segments.len() == 0 {
        return false;
    }
    match segments[0] {
        PathSegment::MoveTo { .. } => {},
        _ => {
            return false;
        },
    }
    let mut i: usize = 0;
    while i < segments.len()
        invariant
            0 <= i <= segments@.len(),
            segments@.len() > 0,
            segments@[0] is MoveTo,
            forall|j: int| 0 <= j < i ==> seg_in_range(#[trigger] segments@[j]),
        decreases segments@.len() - i,
    {
        if !check_seg_in_range(&segments[i]) {
            return false;
        }
        i += 1;
    }
    true
}

/// All points of a segment sequence, in order, as a vector.
pub fn all_points(segments: &Vec<PathSegment>) -> (v: Vec<(i64, i64)>)
    ensures
        v@ == path_points(segments@),
{
    let mut v: Vec<(i64, i64)> = Vec::new();
    proof {
        assert(segments@.subrange(0, 0) =~= Seq::<PathSegment>::empty());
        assert(path_points(Seq::<PathSegment>::empty()) =~= Seq::<(i64, i64)>::empty());
    }
    let mut i: usize = 0;
    while i < segments.len()
        invariant
            0 <= i <= segments@.len(),
            v@ == path_points(segments@.subrange(0, i as int)),
        decreases segments@.len() - i,
    {
        let mut pl = seg_point_list(&segments[i]);
        v.append(&mut pl);
        proof {
            lemma_path_points_step(segments@, i as int);
        }
        i += 1;
    }
    proof {
        assert(segments@.subrange(0, segments@.len() as int) =~= segments@);
    }
    v
}

/// Decide whether a segment sequence is degenerate: all of its points (if
/// any) coincide.
pub fn check_degenerate(segments: &Vec<PathSegment>) -> (r: bool)
    ensures
        r == degenerate_points(segments@),
{
    let pts = all_points(segments);
    if pts.len() == 0 {
        return true;
    }
    let p0 = pts[0];
    let mut i: usize = 0;
    while i < pts.len()
        invariant
            0 <= i <= pts@.len(),
            pts@.len() > 0,
            p0 == pts@[0],
            pts@ == path_points(segments@),
            forall|j: int| 0 <= j < i ==> #[trigger] pts@[j] == p0,
        decreases pts@.len() - i,
    {
        let p = pts[i];
        if p.0 != p0.0 || p.1 != p0.1 {
            assert(!degenerate_points(segments@)) by {
                assert(pts@[i as int] != pts@[0]);
            }
            return false;
        }
        i += 1;
    }
    true
}

/// Reconstruct a path from stored segment instructions. Fails (returns
/// `None`) when the list is empty, when it was never started with a move, or
/// when a coordinate falls outside `COORD_LIMIT`.
pub fn build_path(segments: Vec<PathSegment>) -> (r: Option<TerritoryPath>)
    ensures
        r is Some <==> valid_segments(segments@),
        r matches Some(p) ==> p.segments_seq() == segments@ && p.wf(),
{
    if check_segments(&segments) {
        Some(TerritoryPath { segments })
    } else {
        None
    }
}

/// An owned copy of a segment list.
fn copy_segments(v: &Vec<PathSegment>) -> (r: Vec<PathSegment>)
    ensures
        r@ == v@,
{
    let mut r: Vec<PathSegment> = Vec::new();
    let mut i: usize = 0;
    while i < v.len()
        invariant
            0 <= i <= v@.len(),
            r@ == v@.subrange(0, i as int),
        decreases v@.len() - i,
    {
        r.push(v[i]);
        proof {
            assert(r@ =~= v@.subrange(0, i + 1));
        }
        i += 1;
    }
    proof {
        assert(r@ =~= v@);
    }
    r
}

/// Rebuild the vector path of a registered territory from its stored
/// segment instructions. For an identifier validated against a well-formed
/// registry this always succeeds, and the path is usable for bounds queries.
pub fn path_for_territory(id: TerritoryId, registry: &Registry) -> (r: Option<TerritoryPath>)
    requires
        registry.wf(),
        registry.spec_contains(id.code()),
    ensures
        r is Some,
        r matches Some(p) ==> {
            &&& registry.spec_find(id.code()) matches Some(info) && p.segments_seq()
                == info.shape@
            &&& p.wf()
            &&& !p.degenerate()
        },
{
    proof {
        lemma_lookup_total(*registry, id.code());
    }
    let info = id.info(registry);
    let segments = copy_segments(&info.shape);
    build_path(segments)
}

} // verus!
