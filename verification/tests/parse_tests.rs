use torn_territories::instructions::{
    colour_from_hex, merge_instruction_sets, parse_opacity, parse_rendering_instructions, Colour,
    InstructionError, InstructionSet, Opacity, RenderInstruction,
};
use torn_territories::territory::{Registry, TerritoryId, TerritoryIdError};

#[test]
fn colour_from_hex_parses_channels_exactly() {
    assert_eq!(
        colour_from_hex("#ff8001"),
        Some(Colour { r: 255, g: 128, b: 1 })
    );
    assert_eq!(
        colour_from_hex("#000000"),
        Some(Colour { r: 0, g: 0, b: 0 })
    );
    assert_eq!(
        colour_from_hex("#AbCdEf"),
        Some(Colour { r: 0xab, g: 0xcd, b: 0xef })
    );
}

#[test]
fn colour_from_hex_rejects_malformed_input() {
    assert_eq!(colour_from_hex("ff8001"), None);
    assert_eq!(colour_from_hex("#ff800"), None);
    assert_eq!(colour_from_hex("#ff80011"), None);
    assert_eq!(colour_from_hex("#ff80g1"), None);
    assert_eq!(colour_from_hex(""), None);
    assert_eq!(colour_from_hex("#ÿf8001"), None);
}

#[test]
fn opacity_accepts_plain_decimals() {
    assert_eq!(parse_opacity("0.5"), Ok(Opacity { num: 5, den: 10 }));
    assert_eq!(parse_opacity("1"), Ok(Opacity { num: 1, den: 1 }));
    assert_eq!(parse_opacity("0"), Ok(Opacity { num: 0, den: 1 }));
    assert_eq!(parse_opacity(".25"), Ok(Opacity { num: 25, den: 100 }));
    assert_eq!(parse_opacity("1."), Ok(Opacity { num: 1, den: 1 }));
    assert_eq!(parse_opacity("0.333333"), Ok(Opacity { num: 333333, den: 1000000 }));
}

#[test]
fn opacity_rejects_malformed_text() {
    assert_eq!(parse_opacity(""), Err(InstructionError::InvalidOpacity));
    assert_eq!(parse_opacity("."), Err(InstructionError::InvalidOpacity));
    assert_eq!(parse_opacity("a"), Err(InstructionError::InvalidOpacity));
    assert_eq!(parse_opacity("1e-1"), Err(InstructionError::InvalidOpacity));
    assert_eq!(parse_opacity("0.5.5"), Err(InstructionError::InvalidOpacity));
    assert_eq!(parse_opacity("-0.5"), Err(InstructionError::InvalidOpacity));
    assert_eq!(parse_opacity("0.1234567890"), Err(InstructionError::InvalidOpacity));
}

#[test]
fn opacity_rejects_values_above_one() {
    assert_eq!(parse_opacity("1.5"), Err(InstructionError::OpacityOutOfRange));
    assert_eq!(parse_opacity("2"), Err(InstructionError::OpacityOutOfRange));
    assert_eq!(parse_opacity("1.000001"), Err(InstructionError::OpacityOutOfRange));
}

#[test]
fn instruction_parses_colour_opacity_and_ids() {
    let registry = Registry::builtin();
    let set = parse_rendering_instructions("#ff0000:0.5:XOD,GVE", &registry).unwrap();
    assert_eq!(set.len(), 2);
    let xod = TerritoryId::from_str("XOD", &registry).unwrap();
    let gve = TerritoryId::from_str("GVE", &registry).unwrap();
    let expected = RenderInstruction {
        colour: Colour { r: 255, g: 0, b: 0 },
        opacity: Opacity { num: 5, den: 10 },
    };
    assert_eq!(set.get(&xod), Some(&expected));
    assert_eq!(set.get(&gve), Some(&expected));
}

#[test]
fn instruction_repeated_id_is_kept_once() {
    let registry = Registry::builtin();
    let set = parse_rendering_instructions("#00ff00:1:XOD,XOD", &registry).unwrap();
    assert_eq!(set.len(), 1);
}

#[test]
fn instruction_reports_missing_separators() {
    let registry = Registry::builtin();
    assert_eq!(parse_rendering_instructions("no separators here", &registry).unwrap_err(), InstructionError::MissingSeparator);
    assert_eq!(parse_rendering_instructions("#ff0000:0.5", &registry).unwrap_err(), InstructionError::MissingSeparator);
}

#[test]
fn instruction_reports_bad_colour() {
    let registry = Registry::builtin();
    assert_eq!(parse_rendering_instructions("red:0.5:XOD", &registry).unwrap_err(), InstructionError::InvalidColour);
}

#[test]
fn instruction_reports_bad_opacity() {
    let registry = Registry::builtin();
    assert_eq!(parse_rendering_instructions("#ff0000:abc:XOD", &registry).unwrap_err(), InstructionError::InvalidOpacity);
    assert_eq!(parse_rendering_instructions("#ff0000:1.5:XOD", &registry).unwrap_err(), InstructionError::OpacityOutOfRange);
}

#[test]
fn instruction_reports_first_bad_id() {
    let registry = Registry::builtin();
    assert_eq!(parse_rendering_instructions("#ff0000:0.5:XOD,ZZZ", &registry).unwrap_err(), InstructionError::InvalidId(TerritoryIdError::DoesNotExist));
    assert_eq!(parse_rendering_instructions("#ff0000:0.5:XO,ZZZ", &registry).unwrap_err(), InstructionError::InvalidId(TerritoryIdError::InvalidLength(2)));
    assert_eq!(parse_rendering_instructions("#ff0000:0.5:", &registry).unwrap_err(), InstructionError::InvalidId(TerritoryIdError::InvalidLength(0)));
}

#[test]
fn insert_replaces_existing_instruction() {
    let registry = Registry::builtin();
    let xod = TerritoryId::from_str("XOD", &registry).unwrap();
    let red = RenderInstruction {
        colour: Colour { r: 255, g: 0, b: 0 },
        opacity: Opacity { num: 1, den: 1 },
    };
    let blue = RenderInstruction {
        colour: Colour { r: 0, g: 0, b: 255 },
        opacity: Opacity { num: 1, den: 2 },
    };
    let mut set = InstructionSet::new();
    set.insert(xod, red);
    set.insert(xod, blue);
    assert_eq!(set.len(), 1);
    assert_eq!(set.get(&xod), Some(&blue));
}

#[test]
fn merge_prefers_later_sets() {
    let registry = Registry::builtin();
    let first = parse_rendering_instructions("#ff0000:1:XOD,GVE", &registry).unwrap();
    let second = parse_rendering_instructions("#0000ff:0.5:GVE,LSD", &registry).unwrap();
    let merged = merge_instruction_sets(&vec![first, second]);
    let xod = TerritoryId::from_str("XOD", &registry).unwrap();
    let gve = TerritoryId::from_str("GVE", &registry).unwrap();
    let lsd = TerritoryId::from_str("LSD", &registry).unwrap();
    let red = RenderInstruction {
        colour: Colour { r: 255, g: 0, b: 0 },
        opacity: Opacity { num: 1, den: 1 },
    };
    let blue = RenderInstruction {
        colour: Colour { r: 0, g: 0, b: 255 },
        opacity: Opacity { num: 5, den: 10 },
    };
    assert_eq!(merged.get(&xod), Some(&red));
    assert_eq!(merged.get(&gve), Some(&blue));
    assert_eq!(merged.get(&lsd), Some(&blue));
}
