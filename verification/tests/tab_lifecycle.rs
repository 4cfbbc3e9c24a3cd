use browser_core::TabStatus;

fn status_from_label(label: &str) -> TabStatus {
    match label {
        "Creating" => TabStatus::Creating,
        "Active" => TabStatus::Active,
        "Closed" => TabStatus::Closed,
        other => panic!("unknown tab status label: {}", other),
    }
}

#[test]
fn test_tab_status_creating() {
    // Test TabStatus variant exists
    let status = TabStatus::Creating;
    let serialized = status.label();
    assert!(serialized.contains("Creating"));
}

#[test]
fn test_tab_status_active() {
    let status = TabStatus::Active;
    let serialized = status.label();
    assert!(serialized.contains("Active"));
}

#[test]
fn test_tab_status_closed() {
    let status = TabStatus::Closed;
    let serialized = status.label();
    assert!(serialized.contains("Closed"));
}

#[test]
fn test_tab_status_serialization_roundtrip() {
    let original = TabStatus::Active;
    let serialized = original.label();
    let deserialized = status_from_label(serialized);

    // Verify by re-serializing
    let reserialized = deserialized.label();
    assert_eq!(serialized, reserialized);
}
