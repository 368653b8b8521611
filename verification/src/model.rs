//! The registry's data model: schema models and operation descriptors.
//!
//! Every executable type has a mathematical view; all contracts in this
//! crate are stated over those views.

use vstd::prelude::*;

verus! {

// ---------------------------------------------------------------------------
// Errors
// ---------------------------------------------------------------------------

/// Errors raised while building a registry. Construction errors are fatal to
/// the build and surfaced to the caller; nothing is retried.
#[derive(Debug)]
pub enum RegistryError {
    /// Two fields of one schema model share a name.
    DuplicateField,
    /// Two responses of one operation descriptor share a status code.
    DuplicateResponseStatus,
    /// An operation with the same `operation_id` is already registered.
    DuplicateOperationId,
    /// A schema model with the same name is already registered.
    DuplicateSchemaName,
    /// Schema references that resolve to no registered schema model,
    /// collected across the whole registry in one validation pass.
    UnresolvedReferences(Vec<String>),
}

// ---------------------------------------------------------------------------
// Views
// ---------------------------------------------------------------------------

/// Mathematical view of one schema field.
pub struct FieldView {
    pub name: Seq<char>,
    pub ty: Seq<char>,
    pub required: bool,
    pub doc: Seq<char>,
}

/// Mathematical view of a schema model.
pub struct SchemaView {
    pub name: Seq<char>,
    pub fields: Seq<FieldView>,
}

/// Mathematical view of one response declaration.
pub struct ResponseView {
    pub status: u16,
    pub schema: Option<Seq<char>>,
}

/// Mathematical view of an operation descriptor.
pub struct OperationView {
    pub id: Seq<char>,
    pub method: HttpMethod,
    pub path: Seq<char>,
    pub summary: Seq<char>,
    pub responses: Seq<ResponseView>,
    pub security: Seq<Seq<char>>,
    pub tags: Seq<Seq<char>>,
}

/// Field names are unique within one schema model.
pub open spec fn field_names_unique(fields: Seq<FieldView>) -> bool {
    forall|i: int, j: int| 0 <= i < j < fields.len() ==> fields[i].name != fields[j].name
}

/// Status codes are unique within one operation descriptor, so that the
/// responses form a mapping from status code to schema.
pub open spec fn statuses_unique(responses: Seq<ResponseView>) -> bool {
    forall|i: int, j: int|
        0 <= i < j < responses.len() ==> responses[i].status != responses[j].status
}

impl SchemaView {
    /// Field names are unique within one schema model.
    pub open spec fn wf(self) -> bool {
        field_names_unique(self.fields)
    }
}

impl OperationView {
    /// Responses form a mapping: status codes are unique.
    pub open spec fn wf(self) -> bool {
        statuses_unique(self.responses)
    }
}

// ---------------------------------------------------------------------------
// HTTP method
// ---------------------------------------------------------------------------

/// The HTTP method of an operation.
#[derive(Clone, Copy, Debug, PartialEq, Eq, Structural)]
pub enum HttpMethod {
    Get,
    Post,
    Put,
    Delete,
    Patch,
    Head,
    Options,
}

// ---------------------------------------------------------------------------
// Fields and schema models
// ---------------------------------------------------------------------------

/// One field of a schema model: name, type reference, required flag and
/// documentation string.
pub struct FieldDef {
    pub name: String,
    pub ty: String,
    pub required: bool,
    pub doc: String,
}

impl View for FieldDef {
    type V = FieldView;

    open spec fn view(&self) -> FieldView {
        FieldView { name: self.name@, ty: self.ty@, required: self.required, doc: self.doc@ }
    }
}

impl Clone for FieldDef {
    fn clone(&self) -> (r: Self)
        ensures
            r@ == self@,
    {
        FieldDef {
            name: self.name.clone(),
            ty: self.ty.clone(),
            required: self.required,
            doc: self.doc.clone(),
        }
    }
}

/// The view of a sequence of field definitions.
pub open spec fn fields_view(fields: Seq<FieldDef>) -> Seq<FieldView> {
    fields.map_values(|f: FieldDef| f@)
}

/// A named, versionable data shape: an ordered sequence of fields.
/// Immutable once constructed; field order is kept for export, while
/// structural comparison by the differ ignores it.
pub struct SchemaModel {
    pub name: String,
    pub fields: Vec<FieldDef>,
}

impl View for SchemaModel {
    type V = SchemaView;

    open spec fn view(&self) -> SchemaView {
        SchemaView { name: self.name@, fields: fields_view(self.fields@) }
    }
}

impl Clone for SchemaModel {
    fn clone(&self) -> (r: Self)
        ensures
            r@ == self@,
    {
        let r = SchemaModel { name: self.name.clone(), fields: clone_fields(&self.fields) };
        proof {
            assert(r@.fields =~= self@.fields);
        }
        r
    }
}

fn clone_fields(fields: &Vec<FieldDef>) -> (r: Vec<FieldDef>)
    ensures
        fields_view(r@) == fields_view(fields@),
{
    let mut r: Vec<FieldDef> = Vec::new();
    let mut i: usize = 0;
    while i < fields.len()
        invariant
            0 <= i <= fields.len(),
            r@.len() == i,
            forall|k: int| 0 <= k < i ==> r@[k]@ == fields@[k]@,
        decreases fields.len() - i,
    {
        r.push(fields[i].clone());
        i = i + 1;
    }
    proof {
        assert(fields_view(r@) =~= fields_view(fields@));
    }
    r
}

/// Clones a vector of strings.
pub(crate) fn clone_strings(v: &Vec<String>) -> (r: Vec<String>)
    ensures
        r@.map_values(|s: String| s@) == v@.map_values(|s: String| s@),
{
    let mut r: Vec<String> = Vec::new();
    let mut i: usize = 0;
    while i < v.len()
        invariant
            0 <= i <= v.len(),
            r@.len() == i,
            forall|k: int| 0 <= k < i ==> r@[k]@ == v@[k]@,
        decreases v.len() - i,
    {
        r.push(v[i].clone());
        i = i + 1;
    }
    proof {
        assert(r@.map_values(|s: String| s@) =~= v@.map_values(|s: String| s@));
    }
    r
}

impl SchemaModel {
    /// Builds a schema model, rejecting duplicate field names.
    pub fn new(name: String, fields: Vec<FieldDef>) -> (r: Result<SchemaModel, RegistryError>)
        ensures
            r is Ok <==> field_names_unique(fields_view(fields@)),
            r is Ok ==> r->Ok_0@ == (SchemaView { name: name@, fields: fields_view(fields@) }),
            r is Err ==> r->Err_0 is DuplicateField,
    {
        if has_duplicate_field_name(&fields) {
            Err(RegistryError::DuplicateField)
        } else {
            Ok(SchemaModel { name, fields })
        }
    }

    /// The schema's name.
    pub fn name(&self) -> (r: &String)
        ensures
            r@ == self@.name,
    {
        &self.name
    }

    /// The number of fields.
    pub fn field_count(&self) -> (r: usize)
        ensures
            r == self@.fields.len(),
    {
        self.fields.len()
    }
}

fn has_duplicate_field_name(fields: &Vec<FieldDef>) -> (r: bool)
    ensures
        r <==> !field_names_unique(fields_view(fields@)),
{
    let n = fields.len();
    let mut i: usize = 1;
    while i < n
        invariant
            1 <= i <= n || n == 0,
            n == fields@.len(),
            forall|p: int, q: int| 0 <= p < q < i ==> fields@[p]@.name != fields@[q]@.name,
        decreases n - i,
    {
        let mut j: usize = 0;
        while j < i
            invariant
                0 <= j <= i < n,
                n == fields@.len(),
                forall|p: int, q: int| 0 <= p < q < i ==> fields@[p]@.name != fields@[q]@.name,
                forall|q: int| 0 <= q < j ==> fields@[q]@.name != fields@[i as int]@.name,
            decreases i - j,
        {
            if fields[j].name == fields[i].name {
                assert(fields_view(fields@)[j as int].name == fields_view(fields@)[i as int].name);
                return true;
            }
            j = j + 1;
        }
        i = i + 1;
    }
    assert(forall|p: int, q: int|
        0 <= p < q < fields@.len() ==> fields_view(fields@)[p].name != fields_view(fields@)[q].name);
    false
}

// ---------------------------------------------------------------------------
// Responses and operation descriptors
// ---------------------------------------------------------------------------

/// One response declaration: a status code and the name of the schema model
/// describing the body, or `None` for a response without a body.
pub struct ResponseEntry {
    pub status: u16,
    pub schema: Option<String>,
}

impl View for ResponseEntry {
    type V = ResponseView;

    open spec fn view(&self) -> ResponseView {
        ResponseView {
            status: self.status,
            schema: match self.schema {
                Some(ref s) => Some(s@),
                None => None,
            },
        }
    }
}

impl Clone for ResponseEntry {
    fn clone(&self) -> (r: Self)
        ensures
            r@ == self@,
    {
        ResponseEntry {
            status: self.status,
            schema: match &self.schema {
                Some(s) => Some(s.clone()),
                None => None,
            },
        }
    }
}

/// The view of a sequence of response entries.
pub open spec fn responses_view(responses: Seq<ResponseEntry>) -> Seq<ResponseView> {
    responses.map_values(|r: ResponseEntry| r@)
}

/// The view of a sequence of strings.
pub open spec fn strings_view(v: Seq<String>) -> Seq<Seq<char>> {
    v.map_values(|s: String| s@)
}

/// One HTTP operation: method, path template, summary, declared responses,
/// security requirements and grouping tags, under a stable operation id.
pub struct OperationDescriptor {
    pub id: String,
    pub method: HttpMethod,
    pub path: String,
    pub summary: String,
    pub responses: Vec<ResponseEntry>,
    pub security: Vec<String>,
    pub tags: Vec<String>,
}

impl View for OperationDescriptor {
    type V = OperationView;

    open spec fn view(&self) -> OperationView {
        OperationView {
            id: self.id@,
            method: self.method,
            path: self.path@,
            summary: self.summary@,
            responses: responses_view(self.responses@),
            security: strings_view(self.security@),
            tags: strings_view(self.tags@),
        }
    }
}

impl Clone for OperationDescriptor {
    fn clone(&self) -> (r: Self)
        ensures
            r@ == self@,
    {
        let r = OperationDescriptor {
            id: self.id.clone(),
            method: self.method,
            path: self.path.clone(),
            summary: self.summary.clone(),
            responses: clone_responses(&self.responses),
            security: clone_strings(&self.security),
            tags: clone_strings(&self.tags),
        };
        r
    }
}

fn clone_responses(responses: &Vec<ResponseEntry>) -> (r: Vec<ResponseEntry>)
    ensures
        responses_view(r@) == responses_view(responses@),
{
    let mut r: Vec<ResponseEntry> = Vec::new();
    let mut i: usize = 0;
    while i < responses.len()
        invariant
            0 <= i <= responses.len(),
            r@.len() == i,
            forall|k: int| 0 <= k < i ==> r@[k]@ == responses@[k]@,
        decreases responses.len() - i,
    {
        r.push(responses[i].clone());
        i = i + 1;
    }
    proof {
        assert(responses_view(r@) =~= responses_view(responses@));
    }
    r
}

impl OperationDescriptor {
    /// Builds an operation descriptor, rejecting duplicate response status
    /// codes: the responses form a mapping from status code to schema.
    pub fn new(
        id: String,
        method: HttpMethod,
        path: String,
        summary: String,
        responses: Vec<ResponseEntry>,
        security: Vec<String>,
        tags: Vec<String>,
    ) -> (r: Result<OperationDescriptor, RegistryError>)
        ensures
            r is Ok <==> statuses_unique(responses_view(responses@)),
            r is Ok ==> r->Ok_0@ == (OperationView {
                id: id@,
                method,
                path: path@,
                summary: summary@,
                responses: responses_view(responses@),
                security: strings_view(security@),
                tags: strings_view(tags@),
            }),
            r is Err ==> r->Err_0 is DuplicateResponseStatus,
    {
        if has_duplicate_status(&responses) {
            Err(RegistryError::DuplicateResponseStatus)
        } else {
            Ok(OperationDescriptor { id, method, path, summary, responses, security, tags })
        }
    }

    /// The operation's stable identifier.
    pub fn operation_id(&self) -> (r: &String)
        ensures
            r@ == self@.id,
    {
        &self.id
    }
}

fn has_duplicate_status(responses: &Vec<ResponseEntry>) -> (r: bool)
    ensures
        r <==> !statuses_unique(responses_view(responses@)),
{
    let n = responses.len();
    let mut i: usize = 1;
    while i < n
        invariant
            1 <= i <= n || n == 0,
            n == responses@.len(),
            forall|p: int, q: int| 0 <= p < q < i ==> responses@[p]@.status != responses@[q]@.status,
        decreases n - i,
    {
        let mut j: usize = 0;
        while j < i
            invariant
                0 <= j <= i < n,
                n == responses@.len(),
                forall|p: int, q: int|
                    0 <= p < q < i ==> responses@[p]@.status != responses@[q]@.status,
                forall|q: int| 0 <= q < j ==> responses@[q]@.status != responses@[i as int]@.status,
            decreases i - j,
        {
            if responses[j].status == responses[i].status {
                assert(responses_view(responses@)[j as int].status
                    == responses_view(responses@)[i as int].status);
                return true;
            }
            j = j + 1;
        }
        i = i + 1;
    }
    assert(forall|p: int, q: int|
        0 <= p < q < responses@.len()
            ==> responses_view(responses@)[p].status != responses_view(responses@)[q].status);
    false
}

} // verus!
