//! The bundled test route declaration.
//!
//! A service exercises new-endpoint detection by registering one extra
//! operation; this module declares that operation and its response schema
//! through the registry's own types, so a build can register them and a
//! compatibility check can see the addition.

use vstd::prelude::*;
use crate::model::{
    FieldDef, HttpMethod, OperationDescriptor, ResponseEntry, SchemaModel,
};

verus! {

/// Test endpoint response body.
pub struct TestResponse {
    /// Test message
    pub message: String,
}

/// The schema model describing `TestResponse`: one required string field
/// named `message`.
pub fn test_response_schema() -> (r: SchemaModel)
    ensures
        r@.name == "TestResponse"@,
        r@.fields.len() == 1,
        r@.fields[0].name == "message"@,
        r@.fields[0].ty == "string"@,
        r@.fields[0].required,
        r@.wf(),
{
    let field = FieldDef {
        name: "message".to_owned(),
        ty: "string".to_owned(),
        required: true,
        doc: "Test message".to_owned(),
    };
    let mut fields: Vec<FieldDef> = Vec::new();
    fields.push(field);
    match SchemaModel::new("TestResponse".to_owned(), fields) {
        Ok(s) => s,
        Err(_) => unreached(),
    }
}

/// The descriptor of the test endpoint: GET `/test/new-endpoint`, one
/// `200` response bodied by `TestResponse`, locked behind the `api_key`
/// security scheme and grouped under the `Testing` tag.
pub fn test_endpoint_descriptor() -> (r: OperationDescriptor)
    ensures
        r@.id == "Test New Endpoint Detection"@,
        r@.method == HttpMethod::Get,
        r@.path == "/test/new-endpoint"@,
        r@.responses.len() == 1,
        r@.responses[0].status == 200,
        r@.responses[0].schema == Some("TestResponse"@),
        r@.security.len() == 1,
        r@.security[0] == "api_key"@,
        r@.tags.len() == 1,
        r@.tags[0] == "Testing"@,
        r@.wf(),
{
    let mut responses: Vec<ResponseEntry> = Vec::new();
    responses.push(ResponseEntry { status: 200, schema: Some("TestResponse".to_owned()) });
    let mut security: Vec<String> = Vec::new();
    security.push("api_key".to_owned());
    let mut tags: Vec<String> = Vec::new();
    tags.push("Testing".to_owned());
    match OperationDescriptor::new(
        "Test New Endpoint Detection".to_owned(),
        HttpMethod::Get,
        "/test/new-endpoint".to_owned(),
        "Test - New Endpoint".to_owned(),
        responses,
        security,
        tags,
    ) {
        Ok(op) => op,
        Err(_) => unreached(),
    }
}

} // verus!
