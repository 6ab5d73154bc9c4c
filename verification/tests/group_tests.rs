use fix_engine::message::field;
use fix_engine::message::Field;
use fix_engine::message::RepeatingGroup;

#[test]
fn test_repeating_group_creation() {
    let group = RepeatingGroup::new(
        field::MD_ENTRY_TYPE,
        vec![field::MD_ENTRY_PX, field::MD_ENTRY_SIZE],
    );
    assert_eq!(group.entry_count(), 0);
}

#[test]
fn test_add_entries() {
    let mut group = RepeatingGroup::new(
        field::MD_ENTRY_TYPE,
        vec![field::MD_ENTRY_PX, field::MD_ENTRY_SIZE],
    );

    // Add first entry
    group.add_entry();
    group
        .set_field_at(0, Field::new(field::MD_ENTRY_TYPE, "0".to_string()))
        .unwrap();
    group
        .set_field_at(0, Field::new(field::MD_ENTRY_PX, "100.00".to_string()))
        .unwrap();
    group
        .set_field_at(0, Field::new(field::MD_ENTRY_SIZE, "500".to_string()))
        .unwrap();

    assert_eq!(group.entry_count(), 1);
    assert!(group.validate().is_ok());
}

#[test]
fn test_group_validation() {
    let mut group = RepeatingGroup::new(
        field::MD_ENTRY_TYPE,
        vec![field::MD_ENTRY_PX, field::MD_ENTRY_SIZE],
    );

    // Add incomplete entry
    group.add_entry();
    group
        .set_field_at(0, Field::new(field::MD_ENTRY_TYPE, "0".to_string()))
        .unwrap();
    // Missing MD_ENTRY_PX and MD_ENTRY_SIZE

    assert!(group.validate().is_err());
}

#[test]
fn test_get_field_at() {
    let mut group = RepeatingGroup::new(
        field::MD_ENTRY_TYPE,
        vec![field::MD_ENTRY_PX, field::MD_ENTRY_SIZE],
    );

    // Add an entry
    group.add_entry();
    group
        .set_field_at(0, Field::new(field::MD_ENTRY_TYPE, "0".to_string()))
        .unwrap();
    group
        .set_field_at(0, Field::new(field::MD_ENTRY_PX, "100.00".to_string()))
        .unwrap();
    group
        .set_field_at(0, Field::new(field::MD_ENTRY_SIZE, "500".to_string()))
        .unwrap();

    assert_eq!(
        group.get_field_at(field::MD_ENTRY_PX, 0).unwrap().value(),
        "100.00"
    );
}
