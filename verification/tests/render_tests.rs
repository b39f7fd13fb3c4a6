use torn_territories::instructions::{parse_rendering_instructions, InstructionSet};
use torn_territories::render::{
    element_for_territory, gray_to_rgba, render_plan, render_territories, RenderScale,
};
use torn_territories::territory::{Registry, TerritoryId};
use torn_territories::tiles::{Tile, TileStore, GRID_COLS, GRID_ROWS, MAP_X4_HEIGHT, MAP_X4_WIDTH, TILE_HEIGHT, TILE_WIDTH};
use torn_territories::viewport::{PixelRect, MAP_HEIGHT, MAP_WIDTH};

fn flat_store(value: u8) -> TileStore {
    let mut tiles = Vec::new();
    for r in 0..GRID_ROWS {
        for c in 0..GRID_COLS {
            let w = if (c + 1) * TILE_WIDTH <= MAP_WIDTH { TILE_WIDTH } else { MAP_WIDTH - c * TILE_WIDTH };
            let h = if (r + 1) * TILE_HEIGHT <= MAP_HEIGHT { TILE_HEIGHT } else { MAP_HEIGHT - r * TILE_HEIGHT };
            tiles.push(Tile { width: w, height: h, pixels: vec![value; (w * h) as usize] });
        }
    }
    let x4 = Tile {
        width: MAP_X4_WIDTH,
        height: MAP_X4_HEIGHT,
        pixels: vec![value, 200]
            .into_iter()
            .chain(std::iter::repeat(value))
            .take((MAP_X4_WIDTH * MAP_X4_HEIGHT) as usize)
            .collect(),
    };
    TileStore::new(tiles, x4).unwrap()
}

#[test]
fn fill_and_stroke_of_one_territory_make_one_element() {
    let registry = Registry::builtin();
    let fill = parse_rendering_instructions("#ff0000:0.5:XOD", &registry).unwrap();
    let stroke = parse_rendering_instructions("#0000ff:1:XOD", &registry).unwrap();
    let plan = render_plan(&fill, &stroke, &registry);
    assert_eq!(plan.len(), 1);
    assert!(plan[0].fill.is_some());
    assert!(plan[0].stroke.is_some());
}

#[test]
fn plan_lists_fill_territories_then_stroke_only_ones() {
    let registry = Registry::builtin();
    let fill = parse_rendering_instructions("#ff0000:0.5:XOD,GVE", &registry).unwrap();
    let stroke = parse_rendering_instructions("#0000ff:1:GVE,LSD", &registry).unwrap();
    let plan = render_plan(&fill, &stroke, &registry);
    assert_eq!(plan.len(), 3);
    let xod = TerritoryId::from_str("XOD", &registry).unwrap();
    let gve = TerritoryId::from_str("GVE", &registry).unwrap();
    let lsd = TerritoryId::from_str("LSD", &registry).unwrap();
    assert_eq!(plan[0].id, xod);
    assert!(plan[0].fill.is_some() && plan[0].stroke.is_none());
    assert_eq!(plan[1].id, gve);
    assert!(plan[1].fill.is_some() && plan[1].stroke.is_some());
    assert_eq!(plan[2].id, lsd);
    assert!(plan[2].fill.is_none() && plan[2].stroke.is_some());
}

#[test]
fn plan_is_deterministic() {
    let registry = Registry::builtin();
    let fill = parse_rendering_instructions("#ff0000:0.5:QOR,WLT,FUD", &registry).unwrap();
    let stroke = parse_rendering_instructions("#0000ff:1:FUD,DKE", &registry).unwrap();
    let a = render_plan(&fill, &stroke, &registry);
    let b = render_plan(&fill, &stroke, &registry);
    assert_eq!(a.len(), b.len());
    for (x, y) in a.iter().zip(b.iter()) {
        assert_eq!(x.id, y.id);
        assert_eq!(x.fill, y.fill);
        assert_eq!(x.stroke, y.stroke);
    }
}

#[test]
fn element_carries_the_registered_path() {
    let registry = Registry::builtin();
    let xod = TerritoryId::from_str("XOD", &registry).unwrap();
    let e = element_for_territory(xod, None, None, &registry).unwrap();
    assert_eq!(e.id, xod);
    assert_eq!(e.path.len(), xod.info(&registry).shape.len());
}

#[test]
fn gray_to_rgba_expands_each_pixel() {
    let rgba = gray_to_rgba(&vec![7, 250]);
    assert_eq!(rgba, vec![7, 7, 7, 255, 250, 250, 250, 255]);
}

#[test]
fn opaque_overlay_replaces_the_background() {
    let store = flat_store(9);
    let vp = PixelRect { x: 10, y: 20, width: 3, height: 2 };
    // A fully opaque red overlay.
    let shapes = vec![255u8, 0, 0, 255].repeat(6);
    let out = render_territories(vp, RenderScale::X1, &store, &shapes);
    assert_eq!(out.len(), 24);
    for p in out.chunks(4) {
        assert_eq!(p, &[255, 0, 0, 255]);
    }
}

#[test]
fn transparent_overlay_keeps_the_background() {
    let store = flat_store(9);
    let vp = PixelRect { x: 10, y: 20, width: 3, height: 2 };
    let shapes = vec![0u8; 24];
    let out = render_territories(vp, RenderScale::X1, &store, &shapes);
    for p in out.chunks(4) {
        assert_eq!(p, &[9, 9, 9, 255]);
    }
}

#[test]
fn x4_scale_uses_the_downscaled_tile() {
    let store = flat_store(9);
    let vp = PixelRect { x: 0, y: 0, width: MAP_WIDTH, height: MAP_HEIGHT };
    let sw = (MAP_WIDTH / 4) as usize;
    let sh = (MAP_HEIGHT / 4) as usize;
    let shapes = vec![0u8; 4 * sw * sh];
    let out = render_territories(vp, RenderScale::X4, &store, &shapes);
    assert_eq!(out.len(), 4 * sw * sh);
    // The second pixel of the x4 tile was marked 200 by the store helper.
    assert_eq!(&out[0..8], &[9, 9, 9, 255, 200, 200, 200, 255]);
}

#[test]
fn empty_sets_give_an_empty_plan() {
    let registry = Registry::builtin();
    let plan = render_plan(&InstructionSet::new(), &InstructionSet::new(), &registry);
    assert!(plan.is_empty());
}
