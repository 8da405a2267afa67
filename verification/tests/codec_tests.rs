use visualoc_core::codec::{
    append_encoded, corners_to_string, detach_encoded, set_to_string, string_to_corners,
    string_to_set, Corners, IdSet,
};

fn set_of(ids: &[&str]) -> IdSet {
    let mut s = IdSet::new();
    for id in ids {
        s.insert(id.to_string());
    }
    s
}

fn members(s: &IdSet) -> Vec<String> {
    s.members().clone()
}

#[test]
fn set_round_trip_preserves_members() {
    let s = set_of(&["alpha", "beta", "gamma"]);
    let encoded = set_to_string(&s);
    assert_eq!(encoded, "alpha@beta@gamma@");
    let decoded = string_to_set(&encoded);
    assert_eq!(members(&decoded), vec!["alpha", "beta", "gamma"]);
}

#[test]
fn empty_set_round_trip() {
    let s = IdSet::new();
    let encoded = set_to_string(&s);
    assert_eq!(encoded, "");
    let decoded = string_to_set(&encoded);
    assert_eq!(decoded.len(), 0);
}

#[test]
fn decode_discards_empty_tokens() {
    let decoded = string_to_set("@@a@@b@@@");
    assert_eq!(members(&decoded), vec!["a", "b"]);
}

#[test]
fn decode_collapses_duplicates() {
    let decoded = string_to_set("x@y@x@x@");
    assert_eq!(members(&decoded), vec!["x", "y"]);
}

#[test]
fn decode_without_trailing_delimiter() {
    let decoded = string_to_set("one@two");
    assert_eq!(members(&decoded), vec!["one", "two"]);
}

#[test]
fn insert_is_idempotent() {
    let mut s = IdSet::new();
    s.insert("k".to_string());
    s.insert("k".to_string());
    assert_eq!(s.len(), 1);
    assert!(s.contains(&"k".to_string()));
}

#[test]
fn remove_detaches_member() {
    let mut s = set_of(&["a", "b", "c"]);
    s.remove(&"b".to_string());
    assert_eq!(members(&s), vec!["a", "c"]);
    s.remove(&"zz".to_string());
    assert_eq!(members(&s), vec!["a", "c"]);
}

#[test]
fn append_encoded_adds_one_token() {
    let r = append_encoded("a@b@", "c");
    assert_eq!(r, "a@b@c@");
    let r2 = append_encoded("", "solo");
    assert_eq!(r2, "solo@");
}

#[test]
fn detach_encoded_removes_token() {
    let r = detach_encoded("a@b@c@", &"b".to_string());
    assert_eq!(r, "a@c@");
    let keep = detach_encoded("a@c@", &"zz".to_string());
    assert_eq!(keep, "a@c@");
}

#[test]
fn detach_encoded_is_token_level() {
    // a token that merely contains the id as a substring stays intact
    let r = detach_encoded("ab@b@", &"b".to_string());
    assert_eq!(r, "ab@");
}

#[test]
fn corners_round_trip() {
    let c = Corners {
        x0: "0.25".to_string(),
        y0: "0.5".to_string(),
        x1: "0.75".to_string(),
        y1: "1".to_string(),
    };
    let encoded = corners_to_string(&c);
    assert_eq!(encoded, "0.25@0.5@0.75@1@");
    let back = string_to_corners(&encoded);
    assert_eq!(back.x0, "0.25");
    assert_eq!(back.y0, "0.5");
    assert_eq!(back.x1, "0.75");
    assert_eq!(back.y1, "1");
}

#[test]
fn corners_default_missing_components() {
    let back = string_to_corners("");
    assert_eq!(back.x0, "0");
    assert_eq!(back.y0, "0");
    assert_eq!(back.x1, "0");
    assert_eq!(back.y1, "0");
    let partial = string_to_corners("0.1@@0.9");
    assert_eq!(partial.x0, "0.1");
    assert_eq!(partial.y0, "0");
    assert_eq!(partial.x1, "0.9");
    assert_eq!(partial.y1, "0");
}
