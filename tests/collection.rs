use sits::{same_text, Property, PropertyMap};

#[test]
fn new_collection_is_empty() {
    let map = PropertyMap::new();
    assert_eq!(map.len(), 0);
    assert!(map.is_empty());
    assert_eq!(map.get("Anything"), None);
}

#[test]
fn insert_keeps_order_of_first_insertion() {
    let mut map = PropertyMap::new();
    map.insert("b".to_string(), Property::Integer(1));
    map.insert("a".to_string(), Property::Integer(2));
    map.insert("b".to_string(), Property::Boolean(true));
    assert_eq!(map.len(), 2);
    let (name0, value0) = map.entry_at(0);
    let (name1, value1) = map.entry_at(1);
    assert_eq!(name0, "b");
    assert_eq!(value0, &Property::Boolean(true));
    assert_eq!(name1, "a");
    assert_eq!(value1, &Property::Integer(2));
}

#[test]
fn get_finds_by_name() {
    let mut map = PropertyMap::new();
    map.insert("PartyIDs".to_string(), Property::String("1,2,0".to_string()));
    assert_eq!(map.get("PartyIDs"), Some(&Property::String("1,2,0".to_string())));
    assert_eq!(map.get("partyids"), None);
}

#[test]
fn same_text_compares_characters() {
    assert!(same_text("abc", "abc"));
    assert!(same_text("", ""));
    assert!(!same_text("abc", "abd"));
    assert!(!same_text("abc", "ab"));
    assert!(same_text("é", "é"));
}

#[test]
fn property_from_plain_values() {
    assert_eq!(Property::from(true), Property::Boolean(true));
    assert_eq!(Property::from(7u32), Property::Integer(7));
    assert_eq!(Property::from("Ariel".to_string()), Property::String("Ariel".to_string()));
}
