use torn_territories::path::PathSegment;
use torn_territories::territory::{Registry, RegistryError, TerritoryId, TerritoryIdError, TerritoryInfo};

#[test]
fn test_id() {
    let registry = Registry::builtin();
    let _id: TerritoryId = TerritoryId::from_str("XOD", &registry).unwrap();
}

#[test]
fn builtin_codes_parse_and_have_paths() {
    let registry = Registry::builtin();
    assert_eq!(registry.len(), 8);
    let mut i = 0;
    while i < registry.len() {
        let id = registry.id_at(i);
        let info = id.info(&registry);
        assert!(!info.shape.is_empty());
        assert!(matches!(info.shape[0], PathSegment::MoveTo { .. }));
        i += 1;
    }
}

#[test]
fn unknown_three_letter_code_is_rejected() {
    let registry = Registry::builtin();
    let r = TerritoryId::from_str("ZZZ", &registry);
    assert!(matches!(r, Err(TerritoryIdError::DoesNotExist)));
}

#[test]
fn wrong_length_is_rejected() {
    let registry = Registry::builtin();
    assert!(matches!(
        TerritoryId::from_str("XO", &registry),
        Err(TerritoryIdError::InvalidLength(2))
    ));
    assert!(matches!(
        TerritoryId::from_str("XODA", &registry),
        Err(TerritoryIdError::InvalidLength(4))
    ));
    assert!(matches!(
        TerritoryId::from_str("", &registry),
        Err(TerritoryIdError::InvalidLength(0))
    ));
}

#[test]
fn non_ascii_is_rejected_before_length() {
    let registry = Registry::builtin();
    assert!(matches!(
        TerritoryId::from_str("ÅBC", &registry),
        Err(TerritoryIdError::InvalidEncoding)
    ));
    assert!(matches!(
        TerritoryId::from_str("é", &registry),
        Err(TerritoryIdError::InvalidEncoding)
    ));
}

#[test]
fn lookup_misses_unregistered_id() {
    let registry = Registry::builtin();
    let free = TerritoryId::from_bytes(b'Z', b'Z', b'Z').unwrap();
    assert!(registry.lookup(&free).is_none());
    assert!(!registry.contains(&free));
}

#[test]
fn info_fields_are_kept() {
    let registry = Registry::builtin();
    let xod = TerritoryId::from_str("XOD", &registry).unwrap();
    let info = xod.info(&registry);
    assert_eq!(info.sector, 7);
    assert_eq!(info.db_id, 101);
    assert_eq!(info.slots, 10);
    assert_eq!(info.neighbors.len(), 2);
    assert_eq!(info.shape.len(), 5);
}

fn square_info(neighbors: Vec<TerritoryId>) -> TerritoryInfo {
    TerritoryInfo {
        shape: vec![
            PathSegment::MoveTo { x: 50, y: 50 },
            PathSegment::LineTo { x: 150, y: 50 },
            PathSegment::LineTo { x: 150, y: 150 },
            PathSegment::LineTo { x: 50, y: 150 },
            PathSegment::ClosePath,
        ],
        sector: 1,
        db_id: 1,
        slots: 1,
        neighbors,
    }
}

#[test]
fn from_entries_accepts_valid_data() {
    let a = TerritoryId::from_bytes(b'A', b'A', b'A').unwrap();
    let b = TerritoryId::from_bytes(b'B', b'B', b'B').unwrap();
    let reg = Registry::from_entries(vec![
        (a, square_info(vec![b])),
        (b, square_info(vec![a])),
    ])
    .unwrap();
    assert!(reg.contains(&a));
    assert!(reg.contains(&b));
}

#[test]
fn from_entries_rejects_empty_shape() {
    let a = TerritoryId::from_bytes(b'A', b'A', b'A').unwrap();
    let mut info = square_info(vec![]);
    info.shape = vec![];
    let r = Registry::from_entries(vec![(a, info)]);
    assert!(matches!(r, Err(RegistryError::InvalidShape)));
}

#[test]
fn from_entries_rejects_shape_not_started_with_move() {
    let a = TerritoryId::from_bytes(b'A', b'A', b'A').unwrap();
    let mut info = square_info(vec![]);
    info.shape = vec![
        PathSegment::LineTo { x: 1, y: 1 },
        PathSegment::LineTo { x: 2, y: 2 },
    ];
    let r = Registry::from_entries(vec![(a, info)]);
    assert!(matches!(r, Err(RegistryError::InvalidShape)));
}

#[test]
fn from_entries_rejects_single_point_shape() {
    let a = TerritoryId::from_bytes(b'A', b'A', b'A').unwrap();
    let mut info = square_info(vec![]);
    info.shape = vec![PathSegment::MoveTo { x: 5, y: 5 }, PathSegment::ClosePath];
    let r = Registry::from_entries(vec![(a, info)]);
    assert!(matches!(r, Err(RegistryError::InvalidShape)));
}

#[test]
fn from_entries_rejects_duplicate_codes() {
    let a = TerritoryId::from_bytes(b'A', b'A', b'A').unwrap();
    let r = Registry::from_entries(vec![
        (a, square_info(vec![])),
        (a, square_info(vec![])),
    ]);
    assert!(matches!(r, Err(RegistryError::DuplicateId)));
}

#[test]
fn from_entries_rejects_unknown_neighbor() {
    let a = TerritoryId::from_bytes(b'A', b'A', b'A').unwrap();
    let b = TerritoryId::from_bytes(b'B', b'B', b'B').unwrap();
    let r = Registry::from_entries(vec![(a, square_info(vec![b]))]);
    assert!(matches!(r, Err(RegistryError::UnknownNeighbor)));
}
