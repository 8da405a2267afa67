use visualoc_core::errors::Error;
use visualoc_core::item::{
    insert_plan, marshal_item, normalize_search_column, pair_columns, unmarshal_item, update_plan,
    validate_search_column, Cell, Item, Row, Value,
};
use visualoc_core::schema::{Catalog, FieldDescriptor, FieldKind};

fn catalog_fields(pairs: &[(&str, FieldKind)]) -> Vec<FieldDescriptor> {
    let mut cat = Catalog::new();
    for (name, kind) in pairs {
        cat.add_field(name.to_string(), kind.clone()).unwrap();
    }
    cat.list().clone()
}

fn item_with(
    svars: &[&str],
    ivars: &[i32],
    fvars: &[f32],
) -> Item {
    Item {
        id: "item1".to_string(),
        name: "widget".to_string(),
        image_type: "png".to_string(),
        string_vars: svars.iter().map(|s| s.to_string()).collect(),
        int_vars: ivars.to_vec(),
        float_vars: fvars.iter().map(|f| f.to_bits()).collect(),
    }
}

#[test]
fn positional_round_trip_reproduces_arrays() {
    let fields = catalog_fields(&[
        ("color", FieldKind::Text),
        ("qty", FieldKind::Integer),
        ("weight", FieldKind::Float),
        ("done", FieldKind::Boolean),
        ("ratio", FieldKind::Percentage),
        ("notes", FieldKind::Paragraph),
    ]);
    let item = item_with(&["red", "long text"], &[3, 1], &[12.5, 0.75]);
    let vals = unmarshal_item(&item, &fields).unwrap();
    let cells = pair_columns(&fields, vals).unwrap();
    let row = Row {
        id: item.id.clone(),
        name: item.name.clone(),
        image_type: item.image_type.clone(),
        cells,
    };
    let back = marshal_item(row, &fields);
    assert_eq!(back, item);
}

#[test]
fn scenario_weight_float_survives() {
    let fields = catalog_fields(&[("weight", FieldKind::Float)]);
    let item = item_with(&[], &[], &[12.5]);
    let vals = unmarshal_item(&item, &fields).unwrap();
    assert_eq!(vals, vec![Value::Float(12.5f32.to_bits())]);
    let cells = pair_columns(&fields, vals).unwrap();
    let row = Row {
        id: item.id.clone(),
        name: item.name.clone(),
        image_type: item.image_type.clone(),
        cells,
    };
    let back = marshal_item(row, &fields);
    let floats: Vec<f32> = back.float_vars.iter().map(|b| f32::from_bits(*b)).collect();
    assert_eq!(floats, vec![12.5]);
}

#[test]
fn scenario_renamed_field_keeps_value() {
    let mut cat = Catalog::new();
    cat.add_field("qty".to_string(), FieldKind::Integer).unwrap();
    let item = item_with(&[], &[3], &[]);
    let vals_before = unmarshal_item(&item, cat.list()).unwrap();
    assert_eq!(vals_before, vec![Value::Integer(3)]);
    cat.rename_field(&"qty".to_string(), "quantity".to_string(), FieldKind::Integer).unwrap();
    // the row now carries the new column name; the value is unchanged
    let cells = pair_columns(cat.list(), vals_before).unwrap();
    assert_eq!(cells[0].column, "quantity");
    let row = Row {
        id: item.id.clone(),
        name: item.name.clone(),
        image_type: item.image_type.clone(),
        cells,
    };
    let back = marshal_item(row, cat.list());
    assert_eq!(back.int_vars, vec![3]);
}

#[test]
fn count_mismatch_is_a_validation_error() {
    let fields = catalog_fields(&[("qty", FieldKind::Integer)]);
    let item = item_with(&[], &[], &[]);
    assert_eq!(unmarshal_item(&item, &fields), Err(Error::Validation));
    let too_many = item_with(&["stray"], &[4], &[]);
    assert_eq!(unmarshal_item(&too_many, &fields), Err(Error::Validation));
}

#[test]
fn marshal_classifies_by_value_in_catalog_order() {
    let fields = catalog_fields(&[("qty", FieldKind::Integer), ("color", FieldKind::Text)]);
    // cells arrive in the opposite physical order; catalog order wins
    let row = Row {
        id: "i".to_string(),
        name: "n".to_string(),
        image_type: String::new(),
        cells: vec![
            Cell { column: "color".to_string(), value: Value::Text("red".to_string()) },
            Cell { column: "qty".to_string(), value: Value::Integer(7) },
        ],
    };
    let item = marshal_item(row, &fields);
    assert_eq!(item.int_vars, vec![7]);
    assert_eq!(item.string_vars, vec!["red"]);
}

#[test]
fn marshal_defaults_missing_cells() {
    let fields = catalog_fields(&[
        ("color", FieldKind::Text),
        ("qty", FieldKind::Integer),
        ("weight", FieldKind::Float),
    ]);
    let row = Row {
        id: "i".to_string(),
        name: "n".to_string(),
        image_type: String::new(),
        cells: Vec::new(),
    };
    let item = marshal_item(row, &fields);
    assert_eq!(item.string_vars, vec![""]);
    assert_eq!(item.int_vars, vec![0]);
    assert_eq!(item.float_vars, vec![0u32]);
    assert_eq!(f32::from_bits(item.float_vars[0]), 0.0);
}

#[test]
fn insert_plan_lists_fixed_then_dynamic_columns() {
    let fields = catalog_fields(&[("qty", FieldKind::Integer), ("color", FieldKind::Text)]);
    let item = item_with(&["red"], &[3], &[]);
    let plan = insert_plan(&item, &fields).unwrap();
    assert_eq!(plan.columns, vec!["id", "name", "image_type", "qty", "color"]);
    assert_eq!(
        plan.values,
        vec![
            Value::Text("item1".to_string()),
            Value::Text("widget".to_string()),
            Value::Text("png".to_string()),
            Value::Integer(3),
            Value::Text("red".to_string()),
        ]
    );
}

#[test]
fn update_plan_keys_on_the_id() {
    let fields = catalog_fields(&[("qty", FieldKind::Integer)]);
    let item = item_with(&[], &[9], &[]);
    let plan = update_plan(&item, &fields).unwrap();
    assert_eq!(plan.columns, vec!["name", "image_type", "qty"]);
    assert_eq!(
        plan.values,
        vec![
            Value::Text("widget".to_string()),
            Value::Text("png".to_string()),
            Value::Integer(9),
        ]
    );
    assert_eq!(plan.id, "item1");
}

#[test]
fn search_column_allow_list() {
    let fields = catalog_fields(&[("color", FieldKind::Text)]);
    assert!(validate_search_column(&fields, &"name".to_string()).is_ok());
    assert!(validate_search_column(&fields, &"color".to_string()).is_ok());
    assert_eq!(
        validate_search_column(&fields, &"ctid".to_string()),
        Err(Error::Validation)
    );
    assert_eq!(
        validate_search_column(&fields, &"color; DROP TABLE items".to_string()),
        Err(Error::Validation)
    );
    assert_eq!(normalize_search_column("Name".to_string()), "name");
    assert_eq!(normalize_search_column("color".to_string()), "color");
}
