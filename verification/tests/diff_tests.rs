use openapi_registry::diff::{diff, ChangeDetail, DiffError, Verdict};
use openapi_registry::model::{
    FieldDef, HttpMethod, OperationDescriptor, ResponseEntry, SchemaModel,
};
use openapi_registry::registry::{Document, Registry};
use openapi_registry::routes::{test_endpoint_descriptor, test_response_schema};

fn req_field(name: &str) -> FieldDef {
    FieldDef {
        name: name.to_string(),
        ty: "string".to_string(),
        required: true,
        doc: String::new(),
    }
}

fn opt_field(name: &str) -> FieldDef {
    FieldDef {
        name: name.to_string(),
        ty: "string".to_string(),
        required: false,
        doc: String::new(),
    }
}

fn named_schema(name: &str, fields: Vec<FieldDef>) -> SchemaModel {
    SchemaModel::new(name.to_string(), fields).expect("schema builds")
}

fn describe(
    id: &str,
    method: HttpMethod,
    path: &str,
    responses: Vec<(u16, Option<&str>)>,
    security: Vec<&str>,
) -> OperationDescriptor {
    let responses = responses
        .into_iter()
        .map(|(status, schema)| ResponseEntry {
            status,
            schema: schema.map(|s| s.to_string()),
        })
        .collect();
    let security = security.into_iter().map(|s| s.to_string()).collect();
    OperationDescriptor::new(
        id.to_string(),
        method,
        path.to_string(),
        String::new(),
        responses,
        security,
        Vec::new(),
    )
    .expect("operation builds")
}

fn snapshot(ops: Vec<OperationDescriptor>, schemas: Vec<SchemaModel>) -> Document {
    let mut r = Registry::new();
    for s in schemas {
        r.register_schema(s).expect("schema registers");
    }
    for o in ops {
        r.register(o).expect("operation registers");
    }
    r.finalize().expect("all references resolve");
    r.export()
}

#[test]
fn identical_snapshots_diff_to_empty_compatible() {
    let make = || {
        snapshot(
            vec![describe(
                "a",
                HttpMethod::Get,
                "/a",
                vec![(200, Some("S"))],
                vec!["api_key"],
            )],
            vec![named_schema("S", vec![req_field("msg")])],
        )
    };
    let old = make();
    let new = make();
    let d = diff(&old, &new).expect("snapshots resolve");
    assert!(d.added.is_empty());
    assert!(d.removed.is_empty());
    assert!(d.changed.is_empty());
    assert_eq!(d.verdict, Verdict::Compatible);
}

#[test]
fn new_endpoint_appears_as_addition_with_compatible_verdict() {
    let schema_x = || named_schema("SchemaX", vec![req_field("msg")]);
    let op_a = || describe("A", HttpMethod::Get, "/a", vec![(200, Some("SchemaX"))], vec![]);
    let old = snapshot(vec![op_a()], vec![schema_x()]);
    let schema_y = named_schema("SchemaY", vec![req_field("message")]);
    let op_b = describe(
        "B",
        HttpMethod::Get,
        "/test/new-endpoint",
        vec![(200, Some("SchemaY"))],
        vec![],
    );
    let new = snapshot(vec![op_a(), op_b], vec![schema_x(), schema_y]);
    let d = diff(&old, &new).expect("snapshots resolve");
    assert_eq!(d.added, vec!["B".to_string()]);
    assert!(d.removed.is_empty());
    assert!(d.changed.is_empty());
    assert_eq!(d.verdict, Verdict::Compatible);
}

#[test]
fn bundled_test_route_is_detected_as_addition() {
    let old = snapshot(Vec::new(), Vec::new());
    let new = snapshot(vec![test_endpoint_descriptor()], vec![test_response_schema()]);
    let d = diff(&old, &new).expect("snapshots resolve");
    assert_eq!(d.added, vec!["Test New Endpoint Detection".to_string()]);
    assert!(d.removed.is_empty());
    assert!(d.changed.is_empty());
    assert_eq!(d.verdict, Verdict::Compatible);
}

#[test]
fn removed_operation_is_breaking() {
    let op_a = || describe("a", HttpMethod::Get, "/a", vec![(200, None)], vec![]);
    let op_b = || describe("b", HttpMethod::Get, "/b", vec![(200, None)], vec![]);
    let old = snapshot(vec![op_a(), op_b()], Vec::new());
    let new = snapshot(vec![op_a()], Vec::new());
    let d = diff(&old, &new).expect("snapshots resolve");
    assert_eq!(d.removed, vec!["b".to_string()]);
    assert!(d.added.is_empty());
    assert_eq!(d.verdict, Verdict::Breaking);
}

#[test]
fn deleting_required_field_is_breaking() {
    let op = || describe("a", HttpMethod::Get, "/a", vec![(200, Some("S"))], vec![]);
    let old = snapshot(
        vec![op()],
        vec![named_schema("S", vec![req_field("kept"), req_field("dropped")])],
    );
    let new = snapshot(vec![op()], vec![named_schema("S", vec![req_field("kept")])]);
    let d = diff(&old, &new).expect("snapshots resolve");
    assert_eq!(d.changed.len(), 1);
    assert_eq!(d.changed[0].operation_id, "a");
    assert_eq!(d.changed[0].details, vec![ChangeDetail::ResponseSchemaBreaking(200)]);
    assert_eq!(d.verdict, Verdict::Breaking);
}

#[test]
fn adding_optional_field_is_compatible_but_reported() {
    let op = || describe("a", HttpMethod::Get, "/a", vec![(200, Some("S"))], vec![]);
    let old = snapshot(vec![op()], vec![named_schema("S", vec![req_field("kept")])]);
    let new = snapshot(
        vec![op()],
        vec![named_schema("S", vec![req_field("kept"), opt_field("extra")])],
    );
    let d = diff(&old, &new).expect("snapshots resolve");
    assert_eq!(d.changed.len(), 1);
    assert_eq!(d.changed[0].details, vec![ChangeDetail::ResponseSchemaExtended(200)]);
    assert_eq!(d.verdict, Verdict::Compatible);
}

#[test]
fn field_order_does_not_matter_for_schema_comparison() {
    let op = || describe("a", HttpMethod::Get, "/a", vec![(200, Some("S"))], vec![]);
    let old = snapshot(
        vec![op()],
        vec![named_schema("S", vec![req_field("x"), opt_field("y")])],
    );
    let new = snapshot(
        vec![op()],
        vec![named_schema("S", vec![opt_field("y"), req_field("x")])],
    );
    let d = diff(&old, &new).expect("snapshots resolve");
    assert!(d.changed.is_empty());
    assert_eq!(d.verdict, Verdict::Compatible);
}

#[test]
fn removed_success_response_code_is_breaking() {
    let old = snapshot(
        vec![describe("a", HttpMethod::Get, "/a", vec![(200, None), (404, None)], vec![])],
        Vec::new(),
    );
    let new = snapshot(
        vec![describe("a", HttpMethod::Get, "/a", vec![(404, None)], vec![])],
        Vec::new(),
    );
    let d = diff(&old, &new).expect("snapshots resolve");
    assert_eq!(d.changed.len(), 1);
    assert_eq!(d.changed[0].details, vec![ChangeDetail::ResponseCodeRemoved(200)]);
    assert_eq!(d.verdict, Verdict::Breaking);
}

#[test]
fn added_response_code_is_compatible() {
    let old = snapshot(
        vec![describe("a", HttpMethod::Get, "/a", vec![(200, None)], vec![])],
        Vec::new(),
    );
    let new = snapshot(
        vec![describe("a", HttpMethod::Get, "/a", vec![(200, None), (404, None)], vec![])],
        Vec::new(),
    );
    let d = diff(&old, &new).expect("snapshots resolve");
    assert_eq!(d.changed.len(), 1);
    assert_eq!(d.changed[0].details, vec![ChangeDetail::ResponseCodeAdded(404)]);
    assert_eq!(d.verdict, Verdict::Compatible);
}

#[test]
fn method_change_under_same_id_is_breaking() {
    let old = snapshot(
        vec![describe("a", HttpMethod::Get, "/a", vec![(200, None)], vec![])],
        Vec::new(),
    );
    let new = snapshot(
        vec![describe("a", HttpMethod::Post, "/a", vec![(200, None)], vec![])],
        Vec::new(),
    );
    let d = diff(&old, &new).expect("snapshots resolve");
    assert_eq!(d.changed[0].details, vec![ChangeDetail::MethodChanged]);
    assert_eq!(d.verdict, Verdict::Breaking);
}

#[test]
fn newly_added_security_requirement_is_breaking() {
    let old = snapshot(
        vec![describe("a", HttpMethod::Get, "/a", vec![(200, None)], vec![])],
        Vec::new(),
    );
    let new = snapshot(
        vec![describe("a", HttpMethod::Get, "/a", vec![(200, None)], vec!["api_key"])],
        Vec::new(),
    );
    let d = diff(&old, &new).expect("snapshots resolve");
    assert_eq!(d.changed[0].details, vec![ChangeDetail::SecurityAdded]);
    assert_eq!(d.verdict, Verdict::Breaking);
}

#[test]
fn removed_security_requirement_is_flagged_but_compatible() {
    let old = snapshot(
        vec![describe("a", HttpMethod::Get, "/a", vec![(200, None)], vec!["api_key"])],
        Vec::new(),
    );
    let new = snapshot(
        vec![describe("a", HttpMethod::Get, "/a", vec![(200, None)], vec![])],
        Vec::new(),
    );
    let d = diff(&old, &new).expect("snapshots resolve");
    assert_eq!(d.changed[0].details, vec![ChangeDetail::SecurityChanged]);
    assert_eq!(d.verdict, Verdict::Compatible);
}

#[test]
fn unresolved_reference_in_common_operation_is_a_snapshot_mismatch() {
    let op = || describe("a", HttpMethod::Get, "/a", vec![(200, Some("Ghostly"))], vec![]);
    let make_unfinalized = || {
        let mut r = Registry::new();
        r.register(op()).unwrap();
        r.export()
    };
    let old = make_unfinalized();
    let new = make_unfinalized();
    let d = diff(&old, &new);
    assert!(matches!(d, Err(DiffError::SnapshotMismatch)));
}

#[test]
fn diff_report_is_ordered_by_operation_id() {
    let old = snapshot(Vec::new(), Vec::new());
    let new = snapshot(
        vec![
            describe("zeta", HttpMethod::Get, "/z", vec![(200, None)], vec![]),
            describe("alpha", HttpMethod::Get, "/a", vec![(200, None)], vec![]),
        ],
        Vec::new(),
    );
    let d = diff(&old, &new).expect("snapshots resolve");
    assert_eq!(d.added, vec!["alpha".to_string(), "zeta".to_string()]);
}

#[test]
fn bundled_test_route_matches_its_declaration() {
    let op = test_endpoint_descriptor();
    assert_eq!(op.id, "Test New Endpoint Detection");
    assert_eq!(op.method, HttpMethod::Get);
    assert_eq!(op.path, "/test/new-endpoint");
    assert_eq!(op.responses.len(), 1);
    assert_eq!(op.responses[0].status, 200);
    assert_eq!(op.responses[0].schema, Some("TestResponse".to_string()));
    assert_eq!(op.security, vec!["api_key".to_string()]);
    assert_eq!(op.tags, vec!["Testing".to_string()]);
    let s = test_response_schema();
    assert_eq!(s.name, "TestResponse");
    assert_eq!(s.fields.len(), 1);
    assert_eq!(s.fields[0].name, "message");
    assert!(s.fields[0].required);
}
