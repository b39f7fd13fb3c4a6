//! The overlay renderer's verified core: building the vector scene plan
//! from fill and stroke instruction sets, preparing the raster background,
//! and compositing the rasterised overlay onto it.

use vstd::prelude::*;

use crate::instructions::{InstructionSet, RenderInstruction};
use crate::path::{path_for_territory, TerritoryPath};
use crate::territory::{Registry, TerritoryId};
use crate::tiles::{
    crop_spec, crop_tile, load_map_segment, load_map_x4, segment_spec, TileStore,
};
use crate::viewport::PixelRect;

verus! {

/// The raster scales a view can be rendered at: full resolution, or a
/// quarter per axis for cheap whole-map previews.
#[derive(Debug, Clone, Copy, PartialEq, Eq, Structural)]
pub enum RenderScale {
    X1,
    X4,
}

impl RenderScale {
    /// The per-axis downscaling divisor.
    pub open spec fn spec_factor(self) -> int {
        if self is X1 {
            1
        } else {
            4
        }
    }

    pub fn factor(&self) -> (r: u32)
        ensures
            r == self.spec_factor(),
    {
        match self {
            RenderScale::X1 => 1,
            RenderScale::X4 => 4,
        }
    }
}

/// One shape of the vector scene: a territory's reconstructed path with
/// its fill and stroke instructions, either of which may be absent.
#[derive(Debug, Clone)]
pub struct TerritoryElement {
    pub id: TerritoryId,
    pub path: TerritoryPath,
    pub fill: Option<RenderInstruction>,
    pub stroke: Option<RenderInstruction>,
}

/// The element carries the registered path of its territory.
pub open spec fn element_path_ok(e: TerritoryElement, registry: Registry) -> bool {
    &&& registry.spec_find(e.id.code()) matches Some(info) && e.path.segments_seq()
        == info.shape@
    &&& e.path.wf()
    &&& !e.path.degenerate()
}

/// Build the scene element for one registered territory: its path,
/// reconstructed from the registry, with the given fill and stroke.
pub fn element_for_territory(
    id: TerritoryId,
    fill: Option<RenderInstruction>,
    stroke: Option<RenderInstruction>,
    registry: &Registry,
) -> (r: Option<TerritoryElement>)
    requires
        registry.wf(),
        registry.spec_contains(id.code()),
    ensures
        r is Some,
        r matches Some(e) ==> e.id == id && e.fill == fill && e.stroke == stroke
            && element_path_ok(e, *registry),
{
    match path_for_territory(id, registry) {
        Some(path) => Some(TerritoryElement { id, path, fill, stroke }),
        None => vstd::pervasive::unreached(),
    }
}

/// The stroke entries whose territory the fill map does not name, in
/// order.
pub open spec fn stroke_only(
    s: Seq<(TerritoryId, RenderInstruction)>,
    fill_map: Map<int, RenderInstruction>,
) -> Seq<(TerritoryId, RenderInstruction)>
    decreases s.len(),
{
    if s.len() == 0 {
        Seq::empty()
    } else {
        let rest = stroke_only(s.drop_last(), fill_map);
        if fill_map.contains_key(s.last().0.code()) {
            rest
        } else {
            rest.push(s.last())
        }
    }
}

/// Every stroke-only entry is a stroke entry whose code the fill map does
/// not hold, and no code repeats among them.
proof fn lemma_stroke_only_props(
    s: Seq<(TerritoryId, RenderInstruction)>,
    fill_map: Map<int, RenderInstruction>,
)
    requires
        forall|i: int, j: int|
            0 <= i < j < s.len() ==> (#[trigger] s[i]).0.code() != (#[trigger] s[j]).0.code(),
    ensures
        forall|k: int|
            0 <= k < stroke_only(s, fill_map).len() ==> exists|i: int|
                0 <= i < s.len() && s[i] == #[trigger] stroke_only(s, fill_map)[k],
        forall|k: int|
            0 <= k < stroke_only(s, fill_map).len() ==> !fill_map.contains_key(
                (#[trigger] stroke_only(s, fill_map)[k]).0.code(),
            ),
        forall|k1: int, k2: int|
            0 <= k1 < k2 < stroke_only(s, fill_map).len() ==> (#[trigger] stroke_only(
                s,
                fill_map,
            )[k1]).0.code() != (#[trigger] stroke_only(s, fill_map)[k2]).0.code(),
        stroke_only(s, fill_map).len() <= s.len(),
    decreases s.len(),
{
    if s.len() > 0 {
        let pre = s.drop_last();
        assert forall|i: int, j: int|
            0 <= i < j < pre.len() implies (#[trigger] pre[i]).0.code() != (
        #[trigger] pre[j]).0.code() by {
            assert(pre[i] == s[i] && pre[j] == s[j]);
        }
        lemma_stroke_only_props(pre, fill_map);
        let so = stroke_only(s, fill_map);
        let sop = stroke_only(pre, fill_map);
        assert forall|k: int|
            0 <= k < so.len() implies exists|i: int| 0 <= i < s.len() && s[i] == #[trigger] so[k]
            by {
            if k < sop.len() {
                let i = choose|i: int| 0 <= i < pre.len() && pre[i] == sop[k];
                assert(s[i] == so[k]);
            } else {
                assert(so[k] == s.last());
                assert(s[s.len() - 1] == so[k]);
            }
        }
        assert forall|k1: int, k2: int|
            0 <= k1 < k2 < so.len() implies (#[trigger] so[k1]).0.code() != (
        #[trigger] so[k2]).0.code() by {
            if k2 < sop.len() {
            } else if k2 == sop.len() && so.len() > sop.len() {
                let i = choose|i: int| 0 <= i < pre.len() && pre[i] == sop[k1];
                assert(s[i].0.code() != s.last().0.code());
            }
        }
    }
}

/// Slot `k` of the plan holds the `k`-th fill entry: its territory's
/// path, its fill instruction, and the stroke instruction when the stroke
/// set also names the territory.
pub open spec fn plan_fill_slot_ok(
    r: Seq<TerritoryElement>,
    fill: InstructionSet,
    stroke: InstructionSet,
    registry: Registry,
    k: int,
) -> bool {
    let e = r[k];
    &&& e.id == fill.entries_seq()[k].0
    &&& e.fill == Some(fill.entries_seq()[k].1)
    &&& e.stroke == (if stroke.as_map().contains_key(e.id.code()) {
        Some(stroke.as_map()[e.id.code()])
    } else {
        Option::<RenderInstruction>::None
    })
    &&& element_path_ok(e, registry)
}

/// Slot `nf + k` of the plan holds the `k`-th stroke-only entry, border
/// only.
pub open spec fn plan_stroke_slot_ok(
    r: Seq<TerritoryElement>,
    fill: InstructionSet,
    stroke: InstructionSet,
    registry: Registry,
    nf: int,
    k: int,
) -> bool {
    let e = r[nf + k];
    let se = stroke_only(stroke.entries_seq(), fill.as_map())[k];
    &&& e.id == se.0
    &&& e.fill is None
    &&& e.stroke == Some(se.1)
    &&& !fill.as_map().contains_key(e.id.code())
    &&& element_path_ok(e, registry)
}

/// Build the deterministic draw plan for a scene: every territory of the
/// fill set first, in the set's order, each with its stroke instruction
/// when the stroke set also names it; then the remaining stroke-only
/// territories, in the stroke set's order. A territory named by both sets
/// yields exactly one element, drawn filled and stroked at once, never two
/// overlapping shapes; no territory appears twice.
pub fn render_plan(
    fill: &InstructionSet,
    stroke: &InstructionSet,
    registry: &Registry,
) -> (r: Vec<TerritoryElement>)
    requires
        registry.wf(),
        fill.wf(),
        stroke.wf(),
        forall|i: int|
            0 <= i < fill.entries_seq().len() ==> registry.spec_contains(
                (#[trigger] fill.entries_seq()[i]).0.code(),
            ),
        forall|i: int|
            0 <= i < stroke.entries_seq().len() ==> registry.spec_contains(
                (#[trigger] stroke.entries_seq()[i]).0.code(),
            ),
    ensures
        r@.len() == fill.entries_seq().len() + stroke_only(
            stroke.entries_seq(),
            fill.as_map(),
        ).len(),
        forall|i: int|
            0 <= i < fill.entries_seq().len() ==> #[trigger] plan_fill_slot_ok(
                r@,
                *fill,
                *stroke,
                *registry,
                i,
            ),
        forall|k: int|
            0 <= k < stroke_only(stroke.entries_seq(), fill.as_map()).len()
                ==> #[trigger] plan_stroke_slot_ok(
                r@,
                *fill,
                *stroke,
                *registry,
                fill.entries_seq().len() as int,
                k,
            ),
        forall|i: int, j: int|
            0 <= i < j < r@.len() ==> (#[trigger] r@[i]).id.code() != (
            #[trigger] r@[j]).id.code(),
        forall|c: int|
            fill.as_map().contains_key(c) && stroke.as_map().contains_key(c) ==> exists|i: int|
                0 <= i < r@.len() && (#[trigger] r@[i]).id.code() == c && r@[i].fill is Some
                    && r@[i].stroke is Some,
{
    let mut r: Vec<TerritoryElement> = Vec::new();
    let nf = fill.len();
    let mut i: usize = 0;
    while i < nf
        invariant
            0 <= i <= nf,
            nf == fill.entries_seq().len(),
            registry.wf(),
            fill.wf(),
            stroke.wf(),
            forall|k: int|
                0 <= k < fill.entries_seq().len() ==> registry.spec_contains(
                    (#[trigger] fill.entries_seq()[k]).0.code(),
                ),
            r@.len() == i,
            forall|k: int|
                0 <= k < i ==> #[trigger] plan_fill_slot_ok(r@, *fill, *stroke, *registry, k),
        decreases nf - i,
    {
        let entry = fill.entry(i);
        let border: Option<RenderInstruction> = match stroke.get(&entry.0) {
            Some(b) => Some(*b),
            None => None,
        };
        let element = match element_for_territory(entry.0, Some(entry.1), border, registry) {
            Some(e) => e,
            None => vstd::pervasive::unreached(),
        };
        let ghost pre = r@;
        r.push(element);
        proof {
            assert forall|k: int|
                0 <= k < i + 1 implies #[trigger] plan_fill_slot_ok(
                r@,
                *fill,
                *stroke,
                *registry,
                k,
            ) by {
                if k < i {
                    assert(plan_fill_slot_ok(pre, *fill, *stroke, *registry, k));
                    assert(r@[k] == pre[k]);
                } else {
                    assert(r@[k] == element);
                }
            }
        }
        i += 1;
    }
    let ns = stroke.len();
    let mut j: usize = 0;
    proof {
        assert(stroke.entries_seq().subrange(0, 0) =~= Seq::<(
            TerritoryId,
            RenderInstruction,
        )>::empty());
    }
    while j < ns
        invariant
            0 <= j <= ns,
            ns == stroke.entries_seq().len(),
            nf == fill.entries_seq().len(),
            registry.wf(),
            fill.wf(),
            stroke.wf(),
            forall|k: int|
                0 <= k < stroke.entries_seq().len() ==> registry.spec_contains(
                    (#[trigger] stroke.entries_seq()[k]).0.code(),
                ),
            r@.len() == nf + stroke_only(
                stroke.entries_seq().subrange(0, j as int),
                fill.as_map(),
            ).len(),
            forall|k: int|
                0 <= k < nf ==> #[trigger] plan_fill_slot_ok(r@, *fill, *stroke, *registry, k),
            forall|k: int|
                0 <= k < stroke_only(
                    stroke.entries_seq().subrange(0, j as int),
                    fill.as_map(),
                ).len() ==> {
                    let e = #[trigger] r@[nf + k];
                    let se = stroke_only(
                        stroke.entries_seq().subrange(0, j as int),
                        fill.as_map(),
                    )[k];
                    &&& e.id == se.0
                    &&& e.fill is None
                    &&& e.stroke == Some(se.1)
                    &&& !fill.as_map().contains_key(e.id.code())
                    &&& element_path_ok(e, *registry)
                },
        decreases ns - j,
    {
        let entry = stroke.entry(j);
        let ghost pre = r@;
        let ghost so_pre = stroke_only(stroke.entries_seq().subrange(0, j as int), fill.as_map());
        let in_fill = fill.get(&entry.0).is_some();
        if !in_fill {
            let element = match element_for_territory(entry.0, None, Some(entry.1), registry) {
                Some(e) => e,
                None => vstd::pervasive::unreached(),
            };
            r.push(element);
        }
        proof {
            let sub_next = stroke.entries_seq().subrange(0, j + 1);
            assert(sub_next.drop_last() =~= stroke.entries_seq().subrange(0, j as int));
            assert(sub_next.last() == stroke.entries_seq()[j as int]);
            let so_next = stroke_only(sub_next, fill.as_map());
            if !in_fill {
                assert(so_next =~= so_pre.push(stroke.entries_seq()[j as int]));
            } else {
                assert(so_next =~= so_pre);
            }
            assert forall|k: int|
                0 <= k < nf implies #[trigger] plan_fill_slot_ok(
                r@,
                *fill,
                *stroke,
                *registry,
                k,
            ) by {
                assert(plan_fill_slot_ok(pre, *fill, *stroke, *registry, k));
                assert(r@[k] == pre[k]);
            }
            assert forall|k: int|
                0 <= k < so_next.len() implies {
                let e = #[trigger] r@[nf + k];
                let se = so_next[k];
                &&& e.id == se.0
                &&& e.fill is None
                &&& e.stroke == Some(se.1)
                &&& !fill.as_map().contains_key(e.id.code())
                &&& element_path_ok(e, *registry)
            } by {
                if k < so_pre.len() {
                    assert(r@[nf + k] == pre[nf + k]);
                    assert(so_next[k] == so_pre[k]);
                } else {
                    assert(r@[nf + k] == r@[r@.len() - 1]);
                }
            }
        }
        j += 1;
    }
    proof {
        assert(stroke.entries_seq().subrange(0, ns as int) =~= stroke.entries_seq());
        let so = stroke_only(stroke.entries_seq(), fill.as_map());
        lemma_stroke_only_props(stroke.entries_seq(), fill.as_map());
        assert forall|k: int|
            0 <= k < so.len() implies #[trigger] plan_stroke_slot_ok(
            r@,
            *fill,
            *stroke,
            *registry,
            nf as int,
            k,
        ) by {
            assert(r@[nf + k].id == so[k].0);
        }
        // No territory appears twice: fill entries are pairwise distinct,
        // stroke-only entries are pairwise distinct, and the two groups are
        // disjoint because fill's map holds exactly the fill codes.
        assert forall|a: int, b: int|
            0 <= a < b < r@.len() implies (#[trigger] r@[a]).id.code() != (
        #[trigger] r@[b]).id.code() by {
            if b < nf {
                assert(plan_fill_slot_ok(r@, *fill, *stroke, *registry, a));
                assert(plan_fill_slot_ok(r@, *fill, *stroke, *registry, b));
                assert(fill.entries_seq()[a].0.code() != fill.entries_seq()[b].0.code());
            } else if a < nf {
                assert(plan_fill_slot_ok(r@, *fill, *stroke, *registry, a));
                assert(plan_stroke_slot_ok(r@, *fill, *stroke, *registry, nf as int, b - nf));
                crate::instructions::lemma_find_inst_exists(
                    fill.entries_seq(),
                    r@[a].id.code(),
                );
                assert(fill.as_map().contains_key(r@[a].id.code()));
                assert(!fill.as_map().contains_key(r@[b].id.code()));
            } else {
                assert(plan_stroke_slot_ok(r@, *fill, *stroke, *registry, nf as int, a - nf));
                assert(plan_stroke_slot_ok(r@, *fill, *stroke, *registry, nf as int, b - nf));
                assert(so[a - nf].0.code() != so[b - nf].0.code());
            }
        }
        assert forall|c: int|
            fill.as_map().contains_key(c) && stroke.as_map().contains_key(c) implies exists|i: int|
                0 <= i < r@.len() && (#[trigger] r@[i]).id.code() == c && r@[i].fill is Some
                    && r@[i].stroke is Some by {
            crate::instructions::lemma_find_inst_exists(fill.entries_seq(), c);
            let i = choose|i: int|
                0 <= i < fill.entries_seq().len() && (#[trigger] fill.entries_seq()[i]).0.code()
                    == c;
            assert(plan_fill_slot_ok(r@, *fill, *stroke, *registry, i));
            assert(r@[i].id.code() == c && r@[i].fill is Some && r@[i].stroke is Some);
        }
    }
    r
}

/// The RGBA expansion of a grayscale buffer: each gray byte becomes an
/// opaque pixel with all three channels equal to it.
pub open spec fn rgba_of_gray(g: Seq<u8>) -> Seq<u8> {
    Seq::new(
        g.len() * 4,
        |k: int|
            if k % 4 == 3 {
                255u8
            } else {
                g[k / 4]
            },
    )
}

/// Convert a grayscale buffer to RGBA: each pixel's gray value is copied
/// to the three colour channels and the alpha channel is fully opaque.
pub fn gray_to_rgba(g: &Vec<u8>) -> (r: Vec<u8>)
    requires
        g@.len() * 4 <= usize::MAX,
    ensures
        r@ == rgba_of_gray(g@),
{
    let n = g.len();
    let mut r: Vec<u8> = Vec::new();
    let mut i: usize = 0;
    while i < n
        invariant
            0 <= i <= n,
            n == g@.len(),
            n * 4 <= usize::MAX,
            r@.len() == 4 * i,
            forall|k: int|
                0 <= k < 4 * i ==> #[trigger] r@[k] == (if k % 4 == 3 {
                    255u8
                } else {
                    g@[k / 4]
                }),
        decreases n - i,
    {
        let v = g[i];
        r.push(v);
        r.push(v);
        r.push(v);
        r.push(255);
        proof {
            assert forall|k: int|
                0 <= k < 4 * (i + 1) implies #[trigger] r@[k] == (if k % 4 == 3 {
                255u8
            } else {
                g@[k / 4]
            }) by {
                if k < 4 * i {
                } else {
                    assert(k / 4 == i && (k % 4 == k - 4 * i));
                }
            }
        }
        i += 1;
    }
    proof {
        assert forall|k: int|
            0 <= k < r@.len() implies r@[k] == rgba_of_gray(g@)[k] by {
            assert(r@[k] == (if k % 4 == 3 {
                255u8
            } else {
                g@[k / 4]
            }));
        }
        assert(r@ =~= rgba_of_gray(g@));
    }
    r
}

/// What alpha-compositing one RGBA buffer over another of the same `w` by
/// `h` size yields, pixel by pixel. Blending depends on the two buffers
/// and the dimensions alone.
pub uninterp spec fn overlay_blend(bottom: Seq<u8>, top: Seq<u8>, w: int, h: int) -> Seq<u8>;

/// Relies on `image::imageops::overlay` over `image::RgbaImage`: the top
/// image is alpha-blended onto the bottom one pixel by pixel, in place, so
/// the result keeps the bottom image's dimensions; the blend is a pure
/// function of the two buffers and the dimensions.
#[verifier::external_body]
fn composite_overlay(bottom: Vec<u8>, top: &Vec<u8>, w: u32, h: u32) -> (r: Vec<u8>)
    requires
        bottom@.len() == 4 * w * h,
        top@.len() == 4 * w * h,
    ensures
        r@ == overlay_blend(bottom@, top@, w as int, h as int),
        r@.len() == bottom@.len(),
{
    let mut bg = image::RgbaImage::from_raw(w, h, bottom).unwrap();
    let fg = image::RgbaImage::from_raw(w, h, top.clone()).unwrap();
    image::imageops::overlay(&mut bg, &fg, 0, 0);
    bg.into_raw()
}

/// Composite a territory view: take the grayscale background for the
/// viewport — stitched from the tile grid at full resolution, or cropped
/// out of the pre-downscaled whole-map tile at quarter scale — convert it
/// to colour, and alpha-composite the rasterised shape layer over it. The
/// shape layer must already be rasterised at the scaled viewport size,
/// `viewport / scale`.
pub fn render_territories(
    view_port: PixelRect,
    scale: RenderScale,
    store: &TileStore,
    shapes: &Vec<u8>,
) -> (r: Vec<u8>)
    requires
        store.wf(),
        view_port.in_map(),
        view_port.width as int / scale.spec_factor() >= 1,
        view_port.height as int / scale.spec_factor() >= 1,
        shapes@.len() == 4 * (view_port.width as int / scale.spec_factor()) * (
        view_port.height as int / scale.spec_factor()),
    ensures
        scale is X1 ==> r@ == overlay_blend(
            rgba_of_gray(
                segment_spec(
                    *store,
                    view_port.x as int,
                    view_port.y as int,
                    view_port.width as int,
                    view_port.height as int,
                ),
            ),
            shapes@,
            view_port.width as int,
            view_port.height as int,
        ),
        scale is X4 ==> r@ == overlay_blend(
            rgba_of_gray(
                crop_spec(
                    store.x4_tile(),
                    view_port.x as int / 4,
                    view_port.y as int / 4,
                    view_port.width as int / 4,
                    view_port.height as int / 4,
                ),
            ),
            shapes@,
            view_port.width as int / 4,
            view_port.height as int / 4,
        ),
        r@.len() == shapes@.len(),
{
    match scale {
        RenderScale::X1 => {
            let bg = load_map_segment(store, view_port.x, view_port.y, view_port.width,
                view_port.height);
            proof {
                assert(view_port.width * view_port.height <= 6256 * 3648) by (nonlinear_arith)
                    requires
                        0 <= view_port.width <= 6256,
                        0 <= view_port.height <= 3648,
                ;
                assert((view_port.width * view_port.height) * 4 == 4 * view_port.width
                    * view_port.height) by (nonlinear_arith);
            }
            let rgba = gray_to_rgba(&bg);
            composite_overlay(rgba, shapes, view_port.width, view_port.height)
        },
        RenderScale::X4 => {
            let sx: u32 = view_port.x / 4;
            let sy: u32 = view_port.y / 4;
            let sw: u32 = view_port.width / 4;
            let sh: u32 = view_port.height / 4;
            let x4 = load_map_x4(store);
            proof {
                assert(sx + sw <= 1564 && sy + sh <= 912);
                assert(sw * sh <= 1564 * 912) by (nonlinear_arith)
                    requires
                        0 <= sw <= 1564,
                        0 <= sh <= 912,
                ;
                assert((sw * sh) * 4 == 4 * sw * sh) by (nonlinear_arith);
            }
            let bg = crop_tile(x4, sx, sy, sw, sh);
            let rgba = gray_to_rgba(&bg);
            composite_overlay(rgba, shapes, sw, sh)
        },
    }
}

} // verus!
