use torn_territories::path::{build_path, PathSegment};
use torn_territories::territory::{Registry, TerritoryId, TerritoryInfo};
use torn_territories::viewport::{
    bbox_for_path, fit_view_box, resolve_span, territory_view_box, FracRect, PixelRect, Ratio,
    MAP_HEIGHT, MAP_WIDTH,
};

fn square_path() -> torn_territories::path::TerritoryPath {
    build_path(vec![
        PathSegment::MoveTo { x: 50, y: 50 },
        PathSegment::LineTo { x: 150, y: 50 },
        PathSegment::LineTo { x: 150, y: 150 },
        PathSegment::LineTo { x: 50, y: 150 },
        PathSegment::ClosePath,
    ])
    .unwrap()
}

#[test]
fn fit_view_box_is_clamped_into_the_map() {
    let cases = vec![
        FracRect { xn: 0, yn: 0, wn: 100, hn: 100, den: 1 },
        FracRect { xn: 6200, yn: 3600, wn: 500, hn: 500, den: 1 },
        FracRect { xn: -300, yn: -300, wn: 100000, hn: 100000, den: 1 },
        FracRect { xn: 99, yn: 47, wn: 13, hn: 7, den: 2 },
        FracRect { xn: 1000000, yn: 1000000, wn: 1, hn: 1, den: 3 },
    ];
    for c in cases {
        let r = fit_view_box(&c);
        assert!(r.x.checked_add(r.width).unwrap() <= MAP_WIDTH);
        assert!(r.y.checked_add(r.height).unwrap() <= MAP_HEIGHT);
        assert!(r.width <= MAP_WIDTH && r.height <= MAP_HEIGHT);
    }
}

#[test]
fn fit_view_box_keeps_sizes_that_fit() {
    let r = fit_view_box(&FracRect { xn: 20, yn: 30, wn: 200, hn: 100, den: 2 });
    assert_eq!(r, PixelRect { x: 10, y: 15, width: 100, height: 50 });
}

#[test]
fn fit_view_box_never_upscales_beyond_the_map() {
    let r = fit_view_box(&FracRect { xn: 0, yn: 0, wn: 1000000, hn: 1000000, den: 1 });
    assert_eq!(r.width, MAP_WIDTH);
    assert_eq!(r.height, MAP_HEIGHT);
    assert_eq!(r.x, 0);
    assert_eq!(r.y, 0);
}

#[test]
fn negative_corner_clamps_to_zero() {
    let r = fit_view_box(&FracRect { xn: -10, yn: 5, wn: 100, hn: 100, den: 1 });
    assert_eq!(r.x, 0);
    assert_eq!(r.y, 5);
    assert_eq!(r.width, 100);
    assert_eq!(r.height, 100);
}

#[test]
fn exact_fit_square_viewport() {
    let path = square_path();
    let one = Ratio::new(1, 1).unwrap();
    let bbox = bbox_for_path(&path, &one, &one);
    let r = fit_view_box(&bbox);
    assert_eq!(r, PixelRect { x: 50, y: 50, width: 100, height: 100 });
}

#[test]
fn territory_view_of_registered_square() {
    let sqr = TerritoryId::from_bytes(b'S', b'Q', b'R').unwrap();
    let registry = Registry::from_entries(vec![(
        sqr,
        TerritoryInfo {
            shape: vec![
                PathSegment::MoveTo { x: 50, y: 50 },
                PathSegment::LineTo { x: 150, y: 50 },
                PathSegment::LineTo { x: 150, y: 150 },
                PathSegment::LineTo { x: 50, y: 150 },
                PathSegment::ClosePath,
            ],
            sector: 1,
            db_id: 1,
            slots: 1,
            neighbors: vec![],
        },
    )])
    .unwrap();
    let path = torn_territories::path::path_for_territory(sqr, &registry).unwrap();
    let one = Ratio::new(1, 1).unwrap();
    let r = territory_view_box(&path, false, &one, &one);
    assert_eq!(r, PixelRect { x: 50, y: 50, width: 100, height: 100 });
}

#[test]
fn zooming_out_doubles_the_window() {
    let path = square_path();
    let half = Ratio::new(1, 2).unwrap();
    let one = Ratio::new(1, 1).unwrap();
    // factor 1/2 doubles the dominant dimension and recentres: the square
    // bounding box grows from 100 to 200 on each side, centred on (100, 100).
    let r = fit_view_box(&bbox_for_path(&path, &half, &one));
    assert_eq!(r, PixelRect { x: 0, y: 0, width: 200, height: 200 });
}

#[test]
fn wide_aspect_ratio_derives_height_from_width() {
    let path = square_path();
    let one = Ratio::new(1, 1).unwrap();
    let four_thirds = Ratio::new(4, 3).unwrap();
    // The square is narrower than 4:3, so the height stays and the width
    // becomes 100 * 4/3 = 133.33..., truncated to 133 pixels.
    let r = fit_view_box(&bbox_for_path(&path, &one, &four_thirds));
    assert_eq!(r.height, 100);
    assert_eq!(r.width, 133);
    assert_eq!(r.y, 50);
    // x = 50 - (133.33 - 100) / 2 = 33.33..., truncated to 33.
    assert_eq!(r.x, 33);
}

#[test]
fn whole_map_mode_spans_the_map() {
    let path = square_path();
    let one = Ratio::new(1, 1).unwrap();
    let r = territory_view_box(&path, true, &one, &one);
    assert_eq!(r, PixelRect { x: 0, y: 0, width: MAP_WIDTH, height: MAP_HEIGHT });
}

#[test]
fn resolve_span_prefers_length() {
    assert_eq!(resolve_span(10, Some(50), Some(30)), Some(30));
    assert_eq!(resolve_span(10, Some(50), None), Some(40));
    assert_eq!(resolve_span(50, Some(10), None), None);
    assert_eq!(resolve_span(10, None, None), None);
}
