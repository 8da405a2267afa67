use visualoc_core::errors::Error;
use visualoc_core::schema::{kind_to_tag, tag_to_kind, Catalog, FieldKind};

fn names(cat: &Catalog) -> Vec<String> {
    cat.list().iter().map(|f| f.name.clone()).collect()
}

#[test]
fn add_field_appends_in_order() {
    let mut cat = Catalog::new();
    assert!(cat.add_field("weight".to_string(), FieldKind::Float).is_ok());
    assert!(cat.add_field("qty".to_string(), FieldKind::Integer).is_ok());
    assert!(cat.add_field("note".to_string(), FieldKind::Paragraph).is_ok());
    assert_eq!(names(&cat), vec!["weight", "qty", "note"]);
}

#[test]
fn reserved_names_are_rejected() {
    let mut cat = Catalog::new();
    assert_eq!(cat.add_field("id".to_string(), FieldKind::Text), Err(Error::Validation));
    assert_eq!(cat.add_field("name".to_string(), FieldKind::Text), Err(Error::Validation));
    assert_eq!(cat.add_field("image_type".to_string(), FieldKind::Text), Err(Error::Validation));
    assert_eq!(cat.len(), 0);
}

#[test]
fn bad_names_are_rejected() {
    let mut cat = Catalog::new();
    assert_eq!(cat.add_field("".to_string(), FieldKind::Text), Err(Error::Validation));
    assert_eq!(cat.add_field("has space".to_string(), FieldKind::Text), Err(Error::Validation));
    assert_eq!(cat.add_field("semi;colon".to_string(), FieldKind::Text), Err(Error::Validation));
}

#[test]
fn duplicate_name_is_a_conflict() {
    let mut cat = Catalog::new();
    assert!(cat.add_field("color".to_string(), FieldKind::Text).is_ok());
    assert_eq!(cat.add_field("color".to_string(), FieldKind::Integer), Err(Error::Conflict));
    assert_eq!(cat.len(), 1);
}

#[test]
fn remove_field_closes_the_gap() {
    let mut cat = Catalog::new();
    cat.add_field("a".to_string(), FieldKind::Text).unwrap();
    cat.add_field("b".to_string(), FieldKind::Integer).unwrap();
    cat.add_field("c".to_string(), FieldKind::Float).unwrap();
    assert!(cat.remove_field(&"b".to_string()).is_ok());
    assert_eq!(names(&cat), vec!["a", "c"]);
    assert_eq!(cat.remove_field(&"b".to_string()), Err(Error::NotFound));
}

#[test]
fn never_removed_fields_keep_relative_order() {
    let mut cat = Catalog::new();
    for n in ["one", "two", "three", "four"] {
        cat.add_field(n.to_string(), FieldKind::Text).unwrap();
    }
    cat.remove_field(&"two".to_string()).unwrap();
    cat.rename_field(&"three".to_string(), "third".to_string(), FieldKind::Text).unwrap();
    cat.add_field("five".to_string(), FieldKind::Text).unwrap();
    cat.remove_field(&"one".to_string()).unwrap();
    // "third" (once "three") still precedes "four", which precedes "five"
    assert_eq!(names(&cat), vec!["third", "four", "five"]);
}

#[test]
fn rename_preserves_position() {
    let mut cat = Catalog::new();
    cat.add_field("a".to_string(), FieldKind::Text).unwrap();
    cat.add_field("qty".to_string(), FieldKind::Integer).unwrap();
    cat.add_field("z".to_string(), FieldKind::Text).unwrap();
    assert!(cat
        .rename_field(&"qty".to_string(), "quantity".to_string(), FieldKind::Integer)
        .is_ok());
    assert_eq!(names(&cat), vec!["a", "quantity", "z"]);
}

#[test]
fn rename_rejects_collisions_and_unknowns() {
    let mut cat = Catalog::new();
    cat.add_field("a".to_string(), FieldKind::Text).unwrap();
    cat.add_field("b".to_string(), FieldKind::Text).unwrap();
    assert_eq!(
        cat.rename_field(&"a".to_string(), "b".to_string(), FieldKind::Text),
        Err(Error::Conflict)
    );
    assert_eq!(
        cat.rename_field(&"missing".to_string(), "c".to_string(), FieldKind::Text),
        Err(Error::NotFound)
    );
    assert_eq!(
        cat.rename_field(&"a".to_string(), "id".to_string(), FieldKind::Text),
        Err(Error::Validation)
    );
    // renaming a field to its own name is allowed
    assert!(cat.rename_field(&"a".to_string(), "a".to_string(), FieldKind::Integer).is_ok());
}

#[test]
fn tags_round_trip_for_plain_kinds() {
    let kinds = [
        (FieldKind::Text, "text"),
        (FieldKind::Integer, "integer"),
        (FieldKind::Float, "float"),
        (FieldKind::Boolean, "bool"),
        (FieldKind::Percentage, "percentage"),
        (FieldKind::Paragraph, "paragraph"),
        (FieldKind::Gallery, "gallery"),
    ];
    for (kind, tag) in kinds {
        assert_eq!(kind_to_tag(&kind), tag);
        let back = tag_to_kind(tag);
        assert_eq!(kind_to_tag(&back), tag);
    }
}

#[test]
fn list_tag_round_trip() {
    let kind = FieldKind::List(vec!["red".to_string(), "green".to_string(), "blue".to_string()]);
    let tag = kind_to_tag(&kind);
    assert_eq!(tag, "list,red,green,blue");
    match tag_to_kind(&tag) {
        FieldKind::List(opts) => assert_eq!(opts, vec!["red", "green", "blue"]),
        _ => panic!("expected a list kind"),
    }
}

#[test]
fn unknown_tag_falls_back_to_text() {
    match tag_to_kind("mystery") {
        FieldKind::Text => {}
        _ => panic!("expected the text fallback"),
    }
    match tag_to_kind("list") {
        FieldKind::Text => {}
        _ => panic!("a bare list tag has no options and falls back"),
    }
}
