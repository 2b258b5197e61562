use linkup::machine::MachineId;

#[test]
fn generated_ids_are_unique() {
    let id = MachineId::generate();

    assert_ne!(id, MachineId::generate());
    assert_eq!(id.version_num(), 4);
}

#[test]
fn display_value_can_be_parsed() {
    let id = MachineId::generate();

    assert_eq!(MachineId::parse(&id.to_string()).unwrap(), id);
}

#[test]
fn display_is_hyphenated_lowercase() {
    let id = MachineId::from_u128(0xa1a2a3a4b1b2c1c2d1d2d3d4d5d6d7d8);
    assert_eq!(id.to_string(), "a1a2a3a4-b1b2-c1c2-d1d2-d3d4d5d6d7d8");
    assert_eq!(
        MachineId::parse("A1A2A3A4B1B2C1C2D1D2D3D4D5D6D7D8").unwrap().as_u128(),
        0xa1a2a3a4b1b2c1c2d1d2d3d4d5d6d7d8
    );
    assert!(MachineId::parse("not-a-machine-id").is_err());
}
