use visualoc_core::errors::Error;

#[test]
fn status_codes_follow_the_wire_contract() {
    assert_eq!(Error::Validation.status_code(), 400);
    assert_eq!(Error::Conflict.status_code(), 400);
    assert_eq!(Error::NotFound.status_code(), 404);
    assert_eq!(Error::ExternalTool.status_code(), 500);
    assert_eq!(Error::Io.status_code(), 500);
    assert_eq!(Error::Connectivity.status_code(), 500);
}

#[test]
fn labels_are_stable() {
    assert_eq!(Error::Validation.label(), "validation");
    assert_eq!(Error::NotFound.label(), "not_found");
    assert_eq!(Error::Conflict.label(), "conflict");
    assert_eq!(Error::ExternalTool.label(), "external_tool");
    assert_eq!(Error::Io.label(), "io");
    assert_eq!(Error::Connectivity.label(), "connectivity");
}
