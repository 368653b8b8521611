use openapi_registry::model::{
    FieldDef, HttpMethod, OperationDescriptor, RegistryError, ResponseEntry, SchemaModel,
};
use openapi_registry::registry::Registry;

fn field(name: &str, ty: &str, required: bool) -> FieldDef {
    FieldDef {
        name: name.to_string(),
        ty: ty.to_string(),
        required,
        doc: String::new(),
    }
}

fn schema(name: &str, fields: Vec<FieldDef>) -> SchemaModel {
    SchemaModel::new(name.to_string(), fields).expect("schema builds")
}

fn operation(
    id: &str,
    method: HttpMethod,
    path: &str,
    responses: Vec<(u16, Option<&str>)>,
    security: Vec<&str>,
) -> OperationDescriptor {
    let responses = responses
        .into_iter()
        .map(|(status, schema)| ResponseEntry {
            status,
            schema: schema.map(|s| s.to_string()),
        })
        .collect();
    let security = security.into_iter().map(|s| s.to_string()).collect();
    OperationDescriptor::new(
        id.to_string(),
        method,
        path.to_string(),
        String::new(),
        responses,
        security,
        Vec::new(),
    )
    .expect("operation builds")
}

#[test]
fn schema_rejects_duplicate_field_names() {
    let r = SchemaModel::new(
        "S".to_string(),
        vec![field("a", "string", true), field("a", "integer", false)],
    );
    assert!(matches!(r, Err(RegistryError::DuplicateField)));
}

#[test]
fn operation_rejects_duplicate_statuses() {
    let r = OperationDescriptor::new(
        "op".to_string(),
        HttpMethod::Get,
        "/x".to_string(),
        String::new(),
        vec![
            ResponseEntry { status: 200, schema: None },
            ResponseEntry { status: 200, schema: None },
        ],
        Vec::new(),
        Vec::new(),
    );
    assert!(matches!(r, Err(RegistryError::DuplicateResponseStatus)));
}

#[test]
fn duplicate_operation_id_fails_and_leaves_registry_unchanged() {
    let mut r = Registry::new();
    r.register(operation("a", HttpMethod::Get, "/a", vec![(200, None)], vec![]))
        .expect("first registration succeeds");
    let before: Vec<String> = r.ops.iter().map(|o| o.id.clone()).collect();
    let dup = operation("a", HttpMethod::Post, "/other", vec![(201, None)], vec![]);
    let e = r.register(dup);
    assert!(matches!(e, Err(RegistryError::DuplicateOperationId)));
    let after: Vec<String> = r.ops.iter().map(|o| o.id.clone()).collect();
    assert_eq!(before, after);
    assert_eq!(r.ops.len(), 1);
    assert_eq!(r.ops[0].path, "/a");
}

#[test]
fn duplicate_schema_name_fails() {
    let mut r = Registry::new();
    r.register_schema(schema("S", vec![field("a", "string", true)]))
        .expect("first schema registers");
    let e = r.register_schema(schema("S", vec![field("b", "string", false)]));
    assert!(matches!(e, Err(RegistryError::DuplicateSchemaName)));
    assert_eq!(r.schemas.len(), 1);
}

#[test]
fn export_is_deterministic_and_sorted_by_operation_id() {
    let mut r = Registry::new();
    r.register(operation("zeta", HttpMethod::Get, "/z", vec![(200, None)], vec![]))
        .unwrap();
    r.register(operation("alpha", HttpMethod::Get, "/a", vec![(200, None)], vec![]))
        .unwrap();
    r.register(operation("mid", HttpMethod::Get, "/m", vec![(200, None)], vec![]))
        .unwrap();
    let d1 = r.export();
    let d2 = r.export();
    let ids1: Vec<String> = d1.ops.iter().map(|o| o.id.clone()).collect();
    let ids2: Vec<String> = d2.ops.iter().map(|o| o.id.clone()).collect();
    assert_eq!(ids1, ids2);
    assert_eq!(ids1, vec!["alpha".to_string(), "mid".to_string(), "zeta".to_string()]);
}

#[test]
fn lookup_finds_registered_operation() {
    let mut r = Registry::new();
    r.register(operation("a", HttpMethod::Get, "/a", vec![(200, None)], vec![]))
        .unwrap();
    r.register(operation("b", HttpMethod::Post, "/b", vec![(201, None)], vec![]))
        .unwrap();
    let found = r.lookup("b").expect("b is registered");
    assert_eq!(found.path, "/b");
    assert!(r.lookup("c").is_none());
}

#[test]
fn finalize_accepts_resolved_references() {
    let mut r = Registry::new();
    r.register_schema(schema("S", vec![field("a", "string", true)]))
        .unwrap();
    r.register(operation("a", HttpMethod::Get, "/a", vec![(200, Some("S"))], vec![]))
        .unwrap();
    assert!(r.finalize().is_ok());
}

#[test]
fn finalize_collects_every_dangling_reference() {
    let mut r = Registry::new();
    r.register(operation(
        "a",
        HttpMethod::Get,
        "/a",
        vec![(200, Some("Missing1")), (404, Some("Missing2"))],
        vec![],
    ))
    .unwrap();
    r.register(operation("b", HttpMethod::Get, "/b", vec![(200, Some("Missing1"))], vec![]))
        .unwrap();
    match r.finalize() {
        Err(RegistryError::UnresolvedReferences(names)) => {
            assert_eq!(names.len(), 3);
            assert!(names.contains(&"Missing1".to_string()));
            assert!(names.contains(&"Missing2".to_string()));
        }
        other => panic!("expected unresolved references, got {:?}", other),
    }
}

#[test]
fn empty_registry_finalizes_and_exports_empty_document() {
    let r = Registry::new();
    assert!(r.finalize().is_ok());
    let d = r.export();
    assert_eq!(d.ops.len(), 0);
    assert_eq!(d.schemas.len(), 0);
}

#[test]
fn signature_sorts_codes_and_deduplicates_security_names() {
    let op = operation(
        "a",
        HttpMethod::Get,
        "/a",
        vec![(404, None), (200, None), (500, None)],
        vec!["beta", "alpha", "beta"],
    );
    let sig = op.signature();
    assert_eq!(sig.operation_id, "a");
    assert_eq!(sig.method, HttpMethod::Get);
    assert_eq!(sig.path, "/a");
    assert_eq!(sig.response_codes, vec![200, 404, 500]);
    assert_eq!(sig.security, vec!["alpha".to_string(), "beta".to_string()]);
}
