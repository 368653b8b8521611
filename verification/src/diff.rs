//! The compatibility differ.
//!
//! Given two snapshot documents, the differ classifies every operation as
//! added, removed or changed, matches operations across snapshots by their
//! stable operation id, compares every schema referenced by a common
//! operation structurally, and renders an overall breaking or compatible
//! verdict. It is a pure function over two immutable snapshots.

use vstd::prelude::*;
use crate::model::{
    FieldView, HttpMethod, OperationDescriptor, OperationView, ResponseEntry, ResponseView,
    SchemaModel, SchemaView, responses_view, strings_view,
};
use crate::order::{lex_lt, lemma_lex_transitive, str_compare, StrOrder};
use crate::registry::{
    Document, SnapshotView, contains_op, contains_schema, find_op, find_schema,
    lemma_find_op_at, lemma_find_schema_at, ops_view, schemas_view, schemas_sorted,
};

verus! {

// ---------------------------------------------------------------------------
// Verdict and change details
// ---------------------------------------------------------------------------

/// The overall classification of a diff: breaking if any individual change
/// is breaking, compatible otherwise.
#[derive(Clone, Copy, Debug, PartialEq, Eq, Structural)]
pub enum Verdict {
    Compatible,
    Breaking,
}

/// One observed difference between the old and the new version of a common
/// operation.
#[derive(Clone, Copy, Debug, PartialEq, Eq, Structural)]
pub enum ChangeDetail {
    /// The HTTP method changed under the same operation id.
    MethodChanged,
    /// The path template changed under the same operation id.
    PathChanged,
    /// A response status code exists only in the new version.
    ResponseCodeAdded(u16),
    /// A response status code exists only in the old version.
    ResponseCodeRemoved(u16),
    /// A response gained a body where it had none.
    ResponseBodyAdded(u16),
    /// A response lost its body.
    ResponseBodyRemoved(u16),
    /// The response body schema changed incompatibly: a required field was
    /// removed, or a field's type or required flag changed.
    ResponseSchemaBreaking(u16),
    /// The response body schema changed compatibly: only fields were added.
    ResponseSchemaExtended(u16),
    /// A security requirement appeared where none existed.
    SecurityAdded,
    /// The security requirements changed without newly locking the operation:
    /// non-breaking, but flagged for audit.
    SecurityChanged,
}

/// The single classification policy: which change details break existing
/// clients.
pub open spec fn detail_breaking(d: ChangeDetail) -> bool {
    match d {
        ChangeDetail::MethodChanged => true,
        ChangeDetail::PathChanged => true,
        ChangeDetail::ResponseCodeAdded(_) => false,
        ChangeDetail::ResponseCodeRemoved(status) => 200 <= status < 300,
        ChangeDetail::ResponseBodyAdded(_) => false,
        ChangeDetail::ResponseBodyRemoved(_) => true,
        ChangeDetail::ResponseSchemaBreaking(_) => true,
        ChangeDetail::ResponseSchemaExtended(_) => false,
        ChangeDetail::SecurityAdded => true,
        ChangeDetail::SecurityChanged => false,
    }
}

/// Executable form of the classification policy.
pub fn detail_is_breaking(d: &ChangeDetail) -> (r: bool)
    ensures
        r == detail_breaking(*d),
{
    match d {
        ChangeDetail::MethodChanged => true,
        ChangeDetail::PathChanged => true,
        ChangeDetail::ResponseCodeAdded(_) => false,
        ChangeDetail::ResponseCodeRemoved(status) => 200 <= *status && *status < 300,
        ChangeDetail::ResponseBodyAdded(_) => false,
        ChangeDetail::ResponseBodyRemoved(_) => true,
        ChangeDetail::ResponseSchemaBreaking(_) => true,
        ChangeDetail::ResponseSchemaExtended(_) => false,
        ChangeDetail::SecurityAdded => true,
        ChangeDetail::SecurityChanged => false,
    }
}

// ---------------------------------------------------------------------------
// Structural schema comparison
// ---------------------------------------------------------------------------

/// Some field carries the given name.
pub open spec fn has_field(fields: Seq<FieldView>, name: Seq<char>) -> bool {
    exists|i: int| 0 <= i < fields.len() && fields[i].name == name
}

/// The field is present with the same name, type and required flag.
pub open spec fn field_matched(f: FieldView, fields: Seq<FieldView>) -> bool {
    exists|i: int|
        0 <= i < fields.len() && fields[i].name == f.name && fields[i].ty == f.ty
            && fields[i].required == f.required
}

/// Structural schema equality: the same field set with the same types and
/// required flags, independent of field order and of the schemas' names.
pub open spec fn schema_equiv(a: SchemaView, b: SchemaView) -> bool {
    &&& forall|i: int| 0 <= i < a.fields.len() ==> field_matched(#[trigger] a.fields[i], b.fields)
    &&& forall|i: int| 0 <= i < b.fields.len() ==> field_matched(#[trigger] b.fields[i], a.fields)
}

/// A breaking schema change: a required field of the old shape is gone, or a
/// field present in both changed its type or its required flag.
pub open spec fn schema_breaking_change(a: SchemaView, b: SchemaView) -> bool {
    ||| exists|i: int|
        0 <= i < a.fields.len() && (#[trigger] a.fields[i]).required
            && !has_field(b.fields, a.fields[i].name)
    ||| exists|i: int, j: int|
        0 <= i < a.fields.len() && 0 <= j < b.fields.len()
            && a.fields[i].name == b.fields[j].name
            && (a.fields[i].ty != b.fields[j].ty || a.fields[i].required != b.fields[j].required)
}

fn string_eq(a: &String, b: &String) -> (r: bool)
    ensures
        r == (a@ == b@),
{
    *a == *b
}

/// Whether `f` is matched, by name, type and required flag, among `fields`.
fn field_matched_in(f: &crate::model::FieldDef, fields: &Vec<crate::model::FieldDef>) -> (r: bool)
    requires
        crate::model::field_names_unique(crate::model::fields_view(fields@)),
    ensures
        r == field_matched(f@, crate::model::fields_view(fields@)),
{
    let ghost fv = crate::model::fields_view(fields@);
    let n = fields.len();
    let mut j: usize = 0;
    while j < n
        invariant
            0 <= j <= n,
            n == fields@.len(),
            fv == crate::model::fields_view(fields@),
            crate::model::field_names_unique(fv),
            forall|q: int| 0 <= q < j ==> (#[trigger] fv[q]).name != f@.name,
        decreases n - j,
    {
        assert(fv[j as int] == fields@[j as int]@);
        if string_eq(&fields[j].name, &f.name) {
            let same = string_eq(&fields[j].ty, &f.ty) && fields[j].required == f.required;
            proof {
                if !same {
                    assert forall|q: int|
                        0 <= q < fv.len() && fv[q].name == f@.name implies q == j by {
                        if q != j {
                            assert(fv[q].name != fv[j as int].name);
                        }
                    }
                }
            }
            return same;
        }
        j = j + 1;
    }
    false
}

/// Structural equality of two schema models, order-independent over fields.
pub fn schemas_equivalent(a: &SchemaModel, b: &SchemaModel) -> (r: bool)
    requires
        a@.wf(),
        b@.wf(),
    ensures
        r == schema_equiv(a@, b@),
{
    let ghost av = a@.fields;
    let ghost bv = b@.fields;
    let n = a.fields.len();
    let mut i: usize = 0;
    while i < n
        invariant
            0 <= i <= n,
            n == a.fields@.len(),
            a@.wf(),
            b@.wf(),
            av == a@.fields,
            bv == b@.fields,
            forall|p: int| 0 <= p < i ==> field_matched(#[trigger] av[p], bv),
        decreases n - i,
    {
        assert(av[i as int] == a.fields@[i as int]@);
        if !field_matched_in(&a.fields[i], &b.fields) {
            return false;
        }
        i = i + 1;
    }
    let m = b.fields.len();
    let mut j: usize = 0;
    while j < m
        invariant
            0 <= j <= m,
            m == b.fields@.len(),
            a@.wf(),
            b@.wf(),
            av == a@.fields,
            bv == b@.fields,
            forall|p: int| 0 <= p < av.len() ==> field_matched(#[trigger] av[p], bv),
            forall|p: int| 0 <= p < j ==> field_matched(#[trigger] bv[p], av),
        decreases m - j,
    {
        assert(bv[j as int] == b.fields@[j as int]@);
        if !field_matched_in(&b.fields[j], &a.fields) {
            return false;
        }
        j = j + 1;
    }
    true
}

/// Whether replacing schema `a` by schema `b` breaks clients of `a`.
pub fn schema_change_is_breaking(a: &SchemaModel, b: &SchemaModel) -> (r: bool)
    requires
        a@.wf(),
        b@.wf(),
    ensures
        r == schema_breaking_change(a@, b@),
{
    let ghost av = a@.fields;
    let ghost bv = b@.fields;
    let n = a.fields.len();
    let mut i: usize = 0;
    while i < n
        invariant
            0 <= i <= n,
            n == a.fields@.len(),
            a@.wf(),
            b@.wf(),
            av == a@.fields,
            bv == b@.fields,
            forall|p: int| 0 <= p < i ==> !((#[trigger] av[p]).required && !has_field(bv, av[p].name)),
            forall|p: int, q: int|
                0 <= p < i && 0 <= q < bv.len() && (#[trigger] av[p]).name == (#[trigger] bv[q]).name
                    ==> av[p].ty == bv[q].ty && av[p].required == bv[q].required,
        decreases n - i,
    {
        assert(av[i as int] == a.fields@[i as int]@);
        let m = b.fields.len();
        let mut j: usize = 0;
        let mut found: bool = false;
        while j < m
            invariant
                0 <= j <= m,
                0 <= i < n,
                m == b.fields@.len(),
                n == a.fields@.len(),
                a@.wf(),
                b@.wf(),
                av == a@.fields,
                bv == b@.fields,
                av[i as int] == a.fields@[i as int]@,
                !found ==> forall|q: int| 0 <= q < j ==> (#[trigger] bv[q]).name != av[i as int].name,
                found ==> has_field(bv, av[i as int].name),
                forall|q: int|
                    0 <= q < j && (#[trigger] bv[q]).name == av[i as int].name
                        ==> bv[q].ty == av[i as int].ty && bv[q].required == av[i as int].required,
            decreases m - j,
        {
            assert(bv[j as int] == b.fields@[j as int]@);
            if string_eq(&b.fields[j].name, &a.fields[i].name) {
                if !string_eq(&b.fields[j].ty, &a.fields[i].ty)
                    || b.fields[j].required != a.fields[i].required {
                    return true;
                }
                found = true;
            }
            j = j + 1;
        }
        if a.fields[i].required && !found {
            proof {
                if has_field(bv, av[i as int].name) {
                    let w = choose|q: int| 0 <= q < bv.len() && bv[q].name == av[i as int].name;
                    assert(bv[w].name != av[i as int].name);
                }
            }
            return true;
        }
        proof {
            if !found && has_field(bv, av[i as int].name) {
                let w = choose|q: int| 0 <= q < bv.len() && bv[q].name == av[i as int].name;
                assert(bv[w].name != av[i as int].name);
            }
        }
        i = i + 1;
    }
    false
}

// ---------------------------------------------------------------------------
// Responses and security requirement sets
// ---------------------------------------------------------------------------

/// Some response carries the given status code.
pub open spec fn has_status(rs: Seq<ResponseView>, status: u16) -> bool {
    exists|i: int| 0 <= i < rs.len() && rs[i].status == status
}

/// The first response with the given status code, if any.
pub open spec fn find_response(rs: Seq<ResponseView>, status: u16) -> Option<ResponseView>
    decreases rs.len(),
{
    if rs.len() == 0 {
        None
    } else if rs[0].status == status {
        Some(rs[0])
    } else {
        find_response(rs.drop_first(), status)
    }
}

/// When no response before position `i` carries the status, the first match
/// in the whole sequence is the first match from `i` on.
pub proof fn lemma_find_response_skip(rs: Seq<ResponseView>, status: u16, i: int)
    requires
        0 <= i <= rs.len(),
        forall|p: int| 0 <= p < i ==> (#[trigger] rs[p]).status != status,
    ensures
        find_response(rs, status) == find_response(rs.skip(i), status),
    decreases i,
{
    if i > 0 {
        assert(rs.drop_first() =~= rs.skip(1));
        assert(rs.skip(1).skip(i - 1) =~= rs.skip(i));
        lemma_find_response_skip(rs.skip(1), status, i - 1);
    } else {
        assert(rs.skip(0) =~= rs);
    }
}

/// Finds the position of the first response with the given status code.
fn find_response_in(rs: &Vec<ResponseEntry>, status: u16) -> (r: Option<usize>)
    ensures
        r is Some <==> has_status(responses_view(rs@), status),
        r is Some ==> r->Some_0 < rs@.len()
            && find_response(responses_view(rs@), status)
                == Some(responses_view(rs@)[r->Some_0 as int]),
    decreases rs@.len(),
{
    let ghost rv = responses_view(rs@);
    let n = rs.len();
    let mut i: usize = 0;
    while i < n
        invariant
            0 <= i <= n,
            n == rs@.len(),
            rv == responses_view(rs@),
            forall|p: int| 0 <= p < i ==> (#[trigger] rv[p]).status != status,
        decreases n - i,
    {
        assert(rv[i as int] == rs@[i as int]@);
        if rs[i].status == status {
            proof {
                lemma_find_response_skip(rv, status, i as int);
                assert(rv.skip(i as int)[0] == rv[i as int]);
            }
            return Some(i);
        }
        i = i + 1;
    }
    proof {
        if has_status(rv, status) {
            let w = choose|p: int| 0 <= p < rv.len() && rv[p].status == status;
            assert(rv[w].status != status);
        }
    }
    None
}

/// The name occurs in the sequence.
pub open spec fn name_in(names: Seq<Seq<char>>, x: Seq<char>) -> bool {
    exists|i: int| 0 <= i < names.len() && names[i] == x
}

/// Two sequences of names carry the same set of names.
pub open spec fn same_name_set(a: Seq<Seq<char>>, b: Seq<Seq<char>>) -> bool {
    &&& forall|i: int| 0 <= i < a.len() ==> name_in(b, #[trigger] a[i])
    &&& forall|i: int| 0 <= i < b.len() ==> name_in(a, #[trigger] b[i])
}

fn string_in(x: &String, v: &Vec<String>) -> (r: bool)
    ensures
        r == name_in(strings_view(v@), x@),
{
    let ghost names = strings_view(v@);
    let n = v.len();
    let mut i: usize = 0;
    while i < n
        invariant
            0 <= i <= n,
            n == v@.len(),
            names == strings_view(v@),
            forall|p: int| 0 <= p < i ==> names[p] != x@,
        decreases n - i,
    {
        assert(names[i as int] == v@[i as int]@);
        if string_eq(&v[i], x) {
            return true;
        }
        i = i + 1;
    }
    proof {
        if name_in(names, x@) {
            let w = choose|p: int| 0 <= p < names.len() && names[p] == x@;
            assert(names[w] != x@);
        }
    }
    false
}

/// Whether two vectors of names carry the same set of names.
fn same_string_set(a: &Vec<String>, b: &Vec<String>) -> (r: bool)
    ensures
        r == same_name_set(strings_view(a@), strings_view(b@)),
{
    let ghost an = strings_view(a@);
    let ghost bn = strings_view(b@);
    let n = a.len();
    let mut i: usize = 0;
    while i < n
        invariant
            0 <= i <= n,
            n == a@.len(),
            an == strings_view(a@),
            bn == strings_view(b@),
            forall|p: int| 0 <= p < i ==> name_in(bn, #[trigger] an[p]),
        decreases n - i,
    {
        assert(an[i as int] == a@[i as int]@);
        if !string_in(&a[i], b) {
            return false;
        }
        i = i + 1;
    }
    let m = b.len();
    let mut j: usize = 0;
    while j < m
        invariant
            0 <= j <= m,
            m == b@.len(),
            an == strings_view(a@),
            bn == strings_view(b@),
            forall|p: int| 0 <= p < an.len() ==> name_in(bn, #[trigger] an[p]),
            forall|p: int| 0 <= p < j ==> name_in(an, #[trigger] bn[p]),
        decreases m - j,
    {
        assert(bn[j as int] == b@[j as int]@);
        if !string_in(&b[j], a) {
            return false;
        }
        j = j + 1;
    }
    true
}

// ---------------------------------------------------------------------------
// Changes of one common operation
// ---------------------------------------------------------------------------

/// Method and path changes of a common operation. A transport change under a
/// stable operation id is always breaking: clients cannot follow it.
pub open spec fn method_path_changes(o: OperationView, n: OperationView) -> Seq<ChangeDetail> {
    (if o.method != n.method {
        seq![ChangeDetail::MethodChanged]
    } else {
        Seq::empty()
    }) + (if o.path != n.path {
        seq![ChangeDetail::PathChanged]
    } else {
        Seq::empty()
    })
}

/// Response status codes present only in the old version, in the old
/// declaration order.
pub open spec fn removed_code_changes(
    old_rs: Seq<ResponseView>,
    new_rs: Seq<ResponseView>,
) -> Seq<ChangeDetail>
    decreases old_rs.len(),
{
    if old_rs.len() == 0 {
        Seq::empty()
    } else {
        removed_code_changes(old_rs.drop_last(), new_rs) + (if has_status(
            new_rs,
            old_rs.last().status,
        ) {
            Seq::empty()
        } else {
            seq![ChangeDetail::ResponseCodeRemoved(old_rs.last().status)]
        })
    }
}

/// Response status codes present only in the new version, in the new
/// declaration order.
pub open spec fn added_code_changes(
    old_rs: Seq<ResponseView>,
    new_rs: Seq<ResponseView>,
) -> Seq<ChangeDetail>
    decreases new_rs.len(),
{
    if new_rs.len() == 0 {
        Seq::empty()
    } else {
        added_code_changes(old_rs, new_rs.drop_last()) + (if has_status(
            old_rs,
            new_rs.last().status,
        ) {
            Seq::empty()
        } else {
            seq![ChangeDetail::ResponseCodeAdded(new_rs.last().status)]
        })
    }
}

/// The body comparison of one status code present in both versions. Where a
/// referenced schema does not resolve this yields nothing; the executable
/// differ fails with a snapshot mismatch instead of reaching that case.
pub open spec fn body_change(
    or: ResponseView,
    new_rs: Seq<ResponseView>,
    olds: Seq<SchemaView>,
    news: Seq<SchemaView>,
) -> Seq<ChangeDetail> {
    let nr = find_response(new_rs, or.status)->Some_0;
    match (or.schema, nr.schema) {
        (Option::None, Option::None) => Seq::empty(),
        (Option::Some(_), Option::None) => seq![ChangeDetail::ResponseBodyRemoved(or.status)],
        (Option::None, Option::Some(_)) => seq![ChangeDetail::ResponseBodyAdded(or.status)],
        (Option::Some(na), Option::Some(nb)) => match (
            find_schema(olds, na),
            find_schema(news, nb),
        ) {
            (Option::Some(sa), Option::Some(sb)) => if schema_equiv(sa, sb) {
                Seq::empty()
            } else if schema_breaking_change(sa, sb) {
                seq![ChangeDetail::ResponseSchemaBreaking(or.status)]
            } else {
                seq![ChangeDetail::ResponseSchemaExtended(or.status)]
            },
            _ => Seq::empty(),
        },
    }
}

/// The body comparisons of every status code present in both versions, in
/// the old declaration order.
pub open spec fn body_changes(
    old_rs: Seq<ResponseView>,
    new_rs: Seq<ResponseView>,
    olds: Seq<SchemaView>,
    news: Seq<SchemaView>,
) -> Seq<ChangeDetail>
    decreases old_rs.len(),
{
    if old_rs.len() == 0 {
        Seq::empty()
    } else {
        body_changes(old_rs.drop_last(), new_rs, olds, news) + (if has_status(
            new_rs,
            old_rs.last().status,
        ) {
            body_change(old_rs.last(), new_rs, olds, news)
        } else {
            Seq::empty()
        })
    }
}

/// The security comparison: newly locking a previously public operation is
/// breaking; any other difference in the requirement set is flagged only.
pub open spec fn security_changes(o: OperationView, n: OperationView) -> Seq<ChangeDetail> {
    if same_name_set(o.security, n.security) {
        Seq::empty()
    } else if o.security.len() == 0 {
        seq![ChangeDetail::SecurityAdded]
    } else {
        seq![ChangeDetail::SecurityChanged]
    }
}

/// Every change of one common operation, field by field of its signature, in
/// a fixed report order.
pub open spec fn op_changes(
    o: OperationView,
    n: OperationView,
    olds: Seq<SchemaView>,
    news: Seq<SchemaView>,
) -> Seq<ChangeDetail> {
    method_path_changes(o, n) + removed_code_changes(o.responses, n.responses)
        + added_code_changes(o.responses, n.responses) + body_changes(
        o.responses,
        n.responses,
        olds,
        news,
    ) + security_changes(o, n)
}

// ---------------------------------------------------------------------------
// Schema reference resolution
// ---------------------------------------------------------------------------

/// When the old response's status also exists in the new version and both
/// sides declare a body, both referenced schemas resolve in their snapshots.
pub open spec fn response_refs_resolve(
    or: ResponseView,
    new_rs: Seq<ResponseView>,
    olds: Seq<SchemaView>,
    news: Seq<SchemaView>,
) -> bool {
    if has_status(new_rs, or.status) {
        let nr = find_response(new_rs, or.status)->Some_0;
        match (or.schema, nr.schema) {
            (Option::Some(na), Option::Some(nb)) => contains_schema(olds, na) && contains_schema(
                news,
                nb,
            ),
            _ => true,
        }
    } else {
        true
    }
}

/// Every schema the differ must compare for this common operation resolves.
pub open spec fn op_refs_resolve(
    o: OperationView,
    n: OperationView,
    olds: Seq<SchemaView>,
    news: Seq<SchemaView>,
) -> bool {
    forall|k: int|
        0 <= k < o.responses.len() ==> response_refs_resolve(
            #[trigger] o.responses[k],
            n.responses,
            olds,
            news,
        )
}

/// Errors raised by the differ.
#[derive(Debug)]
pub enum DiffError {
    /// A schema referenced by an operation present in both snapshots cannot
    /// be resolved in one of the two snapshots: a malformed input.
    SnapshotMismatch,
}

/// All changes of one common operation. Fails with a snapshot mismatch when
/// a schema it must compare resolves in neither snapshot.
pub fn operation_changes(
    o: &OperationDescriptor,
    n: &OperationDescriptor,
    old_schemas: &Vec<SchemaModel>,
    new_schemas: &Vec<SchemaModel>,
) -> (r: Result<Vec<ChangeDetail>, DiffError>)
    requires
        o@.wf(),
        n@.wf(),
        schemas_sorted(schemas_view(old_schemas@)),
        schemas_sorted(schemas_view(new_schemas@)),
        forall|i: int|
            0 <= i < schemas_view(old_schemas@).len()
                ==> (#[trigger] schemas_view(old_schemas@)[i]).wf(),
        forall|i: int|
            0 <= i < schemas_view(new_schemas@).len()
                ==> (#[trigger] schemas_view(new_schemas@)[i]).wf(),
    ensures
        r is Ok <==> op_refs_resolve(
            o@,
            n@,
            schemas_view(old_schemas@),
            schemas_view(new_schemas@),
        ),
        r is Ok ==> r->Ok_0@ == op_changes(
            o@,
            n@,
            schemas_view(old_schemas@),
            schemas_view(new_schemas@),
        ),
        r is Err ==> r->Err_0 is SnapshotMismatch,
{
    let ghost ov = o@;
    let ghost nv = n@;
    let ghost olds_v = schemas_view(old_schemas@);
    let ghost news_v = schemas_view(new_schemas@);
    let mut details: Vec<ChangeDetail> = Vec::new();

    if !(o.method == n.method) {
        details.push(ChangeDetail::MethodChanged);
    }
    if !(o.path == n.path) {
        details.push(ChangeDetail::PathChanged);
    }
    proof {
        assert(details@ =~= method_path_changes(ov, nv));
    }
    let ghost s1 = details@;

    let m = o.responses.len();
    let mut j: usize = 0;
    while j < m
        invariant
            0 <= j <= m,
            m == o.responses@.len(),
            ov == o@,
            nv == n@,
            details@ == s1 + removed_code_changes(ov.responses.take(j as int), nv.responses),
        decreases m - j,
    {
        proof {
            assert(ov.responses.take(j as int + 1).drop_last() =~= ov.responses.take(j as int));
            assert(ov.responses.take(j as int + 1).last() == ov.responses[j as int]);
            assert(ov.responses[j as int] == o.responses@[j as int]@);
        }
        let st = o.responses[j].status;
        if find_response_in(&n.responses, st).is_none() {
            details.push(ChangeDetail::ResponseCodeRemoved(st));
        }
        proof {
            assert(details@ =~= s1 + removed_code_changes(
                ov.responses.take(j as int + 1),
                nv.responses,
            ));
        }
        j = j + 1;
    }
    proof {
        assert(ov.responses.take(m as int) =~= ov.responses);
    }
    let ghost s2 = details@;

    let mn = n.responses.len();
    let mut j2: usize = 0;
    while j2 < mn
        invariant
            0 <= j2 <= mn,
            mn == n.responses@.len(),
            ov == o@,
            nv == n@,
            details@ == s2 + added_code_changes(ov.responses, nv.responses.take(j2 as int)),
        decreases mn - j2,
    {
        proof {
            assert(nv.responses.take(j2 as int + 1).drop_last() =~= nv.responses.take(j2 as int));
            assert(nv.responses.take(j2 as int + 1).last() == nv.responses[j2 as int]);
            assert(nv.responses[j2 as int] == n.responses@[j2 as int]@);
        }
        let st = n.responses[j2].status;
        if find_response_in(&o.responses, st).is_none() {
            details.push(ChangeDetail::ResponseCodeAdded(st));
        }
        proof {
            assert(details@ =~= s2 + added_code_changes(
                ov.responses,
                nv.responses.take(j2 as int + 1),
            ));
        }
        j2 = j2 + 1;
    }
    proof {
        assert(nv.responses.take(mn as int) =~= nv.responses);
    }
    let ghost s3 = details@;

    let mut j3: usize = 0;
    while j3 < m
        invariant
            0 <= j3 <= m,
            m == o.responses@.len(),
            ov == o@,
            nv == n@,
            olds_v == schemas_view(old_schemas@),
            news_v == schemas_view(new_schemas@),
            o@.wf(),
            n@.wf(),
            schemas_sorted(olds_v),
            schemas_sorted(news_v),
            forall|i: int| 0 <= i < olds_v.len() ==> (#[trigger] olds_v[i]).wf(),
            forall|i: int| 0 <= i < news_v.len() ==> (#[trigger] news_v[i]).wf(),
            details@ == s3 + body_changes(
                ov.responses.take(j3 as int),
                nv.responses,
                olds_v,
                news_v,
            ),
            forall|p: int|
                0 <= p < j3 ==> response_refs_resolve(
                    #[trigger] ov.responses[p],
                    nv.responses,
                    olds_v,
                    news_v,
                ),
        decreases m - j3,
    {
        proof {
            assert(ov.responses.take(j3 as int + 1).drop_last() =~= ov.responses.take(j3 as int));
            assert(ov.responses.take(j3 as int + 1).last() == ov.responses[j3 as int]);
            assert(ov.responses[j3 as int] == o.responses@[j3 as int]@);
        }
        let st = o.responses[j3].status;
        match find_response_in(&n.responses, st) {
            Some(k) => {
                let ghost nr = find_response(nv.responses, st)->Some_0;
                proof {
                    assert(nr == nv.responses[k as int]);
                    assert(nv.responses[k as int] == n.responses@[k as int]@);
                }
                match (&o.responses[j3].schema, &n.responses[k].schema) {
                    (Some(na), Some(nb)) => {
                        let (ia, fa) = crate::registry::locate_schema(old_schemas, na.as_str());
                        if !fa {
                            proof {
                                assert(!response_refs_resolve(
                                    ov.responses[j3 as int],
                                    nv.responses,
                                    olds_v,
                                    news_v,
                                ));
                            }
                            return Err(DiffError::SnapshotMismatch);
                        }
                        let (ib, fb) = crate::registry::locate_schema(new_schemas, nb.as_str());
                        if !fb {
                            proof {
                                assert(!response_refs_resolve(
                                    ov.responses[j3 as int],
                                    nv.responses,
                                    olds_v,
                                    news_v,
                                ));
                            }
                            return Err(DiffError::SnapshotMismatch);
                        }
                        proof {
                            lemma_find_schema_at(olds_v, na@, ia as int);
                            lemma_find_schema_at(news_v, nb@, ib as int);
                            assert(olds_v[ia as int] == old_schemas@[ia as int]@);
                            assert(news_v[ib as int] == new_schemas@[ib as int]@);
                        }
                        if schemas_equivalent(&old_schemas[ia], &new_schemas[ib]) {
                        } else if schema_change_is_breaking(&old_schemas[ia], &new_schemas[ib]) {
                            details.push(ChangeDetail::ResponseSchemaBreaking(st));
                        } else {
                            details.push(ChangeDetail::ResponseSchemaExtended(st));
                        }
                    },
                    (Some(_), None) => {
                        details.push(ChangeDetail::ResponseBodyRemoved(st));
                    },
                    (None, Some(_)) => {
                        details.push(ChangeDetail::ResponseBodyAdded(st));
                    },
                    (None, None) => {},
                }
            },
            None => {},
        }
        proof {
            assert(details@ =~= s3 + body_changes(
                ov.responses.take(j3 as int + 1),
                nv.responses,
                olds_v,
                news_v,
            ));
        }
        j3 = j3 + 1;
    }
    proof {
        assert(ov.responses.take(m as int) =~= ov.responses);
    }
    let ghost s4 = details@;

    if !same_string_set(&o.security, &n.security) {
        if o.security.len() == 0 {
            proof {
                assert(ov.security.len() == 0);
            }
            details.push(ChangeDetail::SecurityAdded);
        } else {
            details.push(ChangeDetail::SecurityChanged);
        }
    }
    proof {
        assert(details@ =~= s4 + security_changes(ov, nv));
        assert(details@ =~= op_changes(ov, nv, olds_v, news_v));
    }
    Ok(details)
}

// ---------------------------------------------------------------------------
// The diff result
// ---------------------------------------------------------------------------

/// Mathematical view of one changed operation: its id and its change details.
pub struct ChangeView {
    pub id: Seq<char>,
    pub details: Seq<ChangeDetail>,
}

/// One changed operation with its structured change details.
pub struct OperationChange {
    pub operation_id: String,
    pub details: Vec<ChangeDetail>,
}

impl View for OperationChange {
    type V = ChangeView;

    open spec fn view(&self) -> ChangeView {
        ChangeView { id: self.operation_id@, details: self.details@ }
    }
}

/// The view of a sequence of operation changes.
pub open spec fn changes_view(v: Seq<OperationChange>) -> Seq<ChangeView> {
    v.map_values(|c: OperationChange| c@)
}

/// The ids present only in the new snapshot, in the new snapshot's order.
pub open spec fn added_ids(
    new_ops: Seq<OperationView>,
    old_ops: Seq<OperationView>,
) -> Seq<Seq<char>>
    decreases new_ops.len(),
{
    if new_ops.len() == 0 {
        Seq::empty()
    } else {
        added_ids(new_ops.drop_last(), old_ops) + (if contains_op(old_ops, new_ops.last().id) {
            Seq::empty()
        } else {
            seq![new_ops.last().id]
        })
    }
}

/// The ids present only in the old snapshot, in the old snapshot's order.
pub open spec fn removed_ids(
    old_ops: Seq<OperationView>,
    new_ops: Seq<OperationView>,
) -> Seq<Seq<char>>
    decreases old_ops.len(),
{
    if old_ops.len() == 0 {
        Seq::empty()
    } else {
        removed_ids(old_ops.drop_last(), new_ops) + (if contains_op(new_ops, old_ops.last().id) {
            Seq::empty()
        } else {
            seq![old_ops.last().id]
        })
    }
}

/// The changed common operations, in the old snapshot's order: one entry per
/// common operation whose comparison yields at least one change detail.
pub open spec fn changed_entries(
    old_ops: Seq<OperationView>,
    new_ops: Seq<OperationView>,
    olds: Seq<SchemaView>,
    news: Seq<SchemaView>,
) -> Seq<ChangeView>
    decreases old_ops.len(),
{
    if old_ops.len() == 0 {
        Seq::empty()
    } else {
        let prior = changed_entries(old_ops.drop_last(), new_ops, olds, news);
        let o = old_ops.last();
        if contains_op(new_ops, o.id) {
            let d = op_changes(o, find_op(new_ops, o.id)->Some_0, olds, news);
            if d.len() > 0 {
                prior.push(ChangeView { id: o.id, details: d })
            } else {
                prior
            }
        } else {
            prior
        }
    }
}

/// Some changed operation carries a breaking change detail.
pub open spec fn some_breaking(changed: Seq<ChangeView>) -> bool {
    exists|i: int, j: int|
        0 <= i < changed.len() && 0 <= j < changed[i].details.len() && detail_breaking(
            #[trigger] changed[i].details[j],
        )
}

/// The whole diff classifies as breaking when an operation was removed or
/// when any change detail is breaking, and as compatible otherwise.
pub open spec fn spec_verdict(removed: Seq<Seq<char>>, changed: Seq<ChangeView>) -> Verdict {
    if removed.len() > 0 || some_breaking(changed) {
        Verdict::Breaking
    } else {
        Verdict::Compatible
    }
}

/// Mathematical view of a diff result.
pub struct DiffView {
    pub added: Seq<Seq<char>>,
    pub removed: Seq<Seq<char>>,
    pub changed: Seq<ChangeView>,
    pub verdict: Verdict,
}

/// The full diff of two snapshots.
pub open spec fn spec_diff(old: SnapshotView, new: SnapshotView) -> DiffView {
    let removed = removed_ids(old.ops, new.ops);
    let changed = changed_entries(old.ops, new.ops, old.schemas, new.schemas);
    DiffView {
        added: added_ids(new.ops, old.ops),
        removed: removed,
        changed: changed,
        verdict: spec_verdict(removed, changed),
    }
}

/// Every schema the differ must compare, over all common operations,
/// resolves in its snapshot.
pub open spec fn refs_resolve(old: SnapshotView, new: SnapshotView) -> bool {
    forall|i: int|
        0 <= i < old.ops.len() && contains_op(new.ops, (#[trigger] old.ops[i]).id)
            ==> op_refs_resolve(
            old.ops[i],
            find_op(new.ops, old.ops[i].id)->Some_0,
            old.schemas,
            new.schemas,
        )
}

/// The structured diff of two snapshots: every operation id appears in at
/// most one of the three buckets.
pub struct DiffResult {
    pub added: Vec<String>,
    pub removed: Vec<String>,
    pub changed: Vec<OperationChange>,
    pub verdict: Verdict,
}

impl View for DiffResult {
    type V = DiffView;

    open spec fn view(&self) -> DiffView {
        DiffView {
            added: strings_view(self.added@),
            removed: strings_view(self.removed@),
            changed: changes_view(self.changed@),
            verdict: self.verdict,
        }
    }
}

/// Whether any change detail in the vector is breaking.
fn any_breaking_in(v: &Vec<ChangeDetail>) -> (r: bool)
    ensures
        r == exists|j: int| 0 <= j < v@.len() && detail_breaking(#[trigger] v@[j]),
{
    let n = v.len();
    let mut i: usize = 0;
    while i < n
        invariant
            0 <= i <= n,
            n == v@.len(),
            forall|j: int| 0 <= j < i ==> !detail_breaking(#[trigger] v@[j]),
        decreases n - i,
    {
        if detail_is_breaking(&v[i]) {
            return true;
        }
        i = i + 1;
    }
    false
}

/// Diffs two exported snapshot documents.
///
/// Matches operations across the snapshots by operation id, reports additions
/// and removals, compares the signature and every referenced schema of each
/// common operation, and renders the overall verdict. All report lists come
/// out in their snapshot's order, which finalized documents keep sorted by
/// operation id. Fails with a snapshot mismatch, and reports nothing, when a
/// schema it must compare does not resolve.
pub fn diff(old: &Document, new: &Document) -> (r: Result<DiffResult, DiffError>)
    requires
        old@.wf(),
        new@.wf(),
    ensures
        r is Ok <==> refs_resolve(old@, new@),
        r is Ok ==> r->Ok_0@ == spec_diff(old@, new@),
        r is Err ==> r->Err_0 is SnapshotMismatch,
{
    let ghost oldv = old@;
    let ghost newv = new@;
    proof {
        assert(oldv.ops == ops_view(old.ops@));
        assert(oldv.schemas == schemas_view(old.schemas@));
        assert(newv.ops == ops_view(new.ops@));
        assert(newv.schemas == schemas_view(new.schemas@));
    }

    let n_old = old.ops.len();
    let n_new = new.ops.len();

    let mut removed: Vec<String> = Vec::new();
    let mut i: usize = 0;
    proof {
        assert(strings_view(removed@) =~= removed_ids(oldv.ops.take(0), newv.ops));
    }
    while i < n_old
        invariant
            0 <= i <= n_old,
            n_old == old.ops@.len(),
            oldv == old@,
            newv == new@,
            old@.wf(),
            new@.wf(),
            strings_view(removed@) == removed_ids(oldv.ops.take(i as int), newv.ops),
        decreases n_old - i,
    {
        proof {
            assert(oldv.ops.take(i as int + 1).drop_last() =~= oldv.ops.take(i as int));
            assert(oldv.ops.take(i as int + 1).last() == oldv.ops[i as int]);
            assert(oldv.ops[i as int] == old.ops@[i as int]@);
        }
        let (_, found) = crate::registry::locate_op(&new.ops, old.ops[i].id.as_str());
        if !found {
            let ghost seen = removed@;
            removed.push(old.ops[i].id.clone());
            proof {
                assert(strings_view(removed@) =~= strings_view(seen).push(oldv.ops[i as int].id));
            }
        }
        proof {
            assert(strings_view(removed@) =~= removed_ids(oldv.ops.take(i as int + 1), newv.ops));
        }
        i = i + 1;
    }
    proof {
        assert(oldv.ops.take(n_old as int) =~= oldv.ops);
    }

    let mut added: Vec<String> = Vec::new();
    let mut i2: usize = 0;
    proof {
        assert(strings_view(added@) =~= added_ids(newv.ops.take(0), oldv.ops));
    }
    while i2 < n_new
        invariant
            0 <= i2 <= n_new,
            n_new == new.ops@.len(),
            oldv == old@,
            newv == new@,
            old@.wf(),
            new@.wf(),
            strings_view(added@) == added_ids(newv.ops.take(i2 as int), oldv.ops),
        decreases n_new - i2,
    {
        proof {
            assert(newv.ops.take(i2 as int + 1).drop_last() =~= newv.ops.take(i2 as int));
            assert(newv.ops.take(i2 as int + 1).last() == newv.ops[i2 as int]);
            assert(newv.ops[i2 as int] == new.ops@[i2 as int]@);
        }
        let (_, found) = crate::registry::locate_op(&old.ops, new.ops[i2].id.as_str());
        if !found {
            let ghost seen = added@;
            added.push(new.ops[i2].id.clone());
            proof {
                assert(strings_view(added@) =~= strings_view(seen).push(newv.ops[i2 as int].id));
            }
        }
        proof {
            assert(strings_view(added@) =~= added_ids(newv.ops.take(i2 as int + 1), oldv.ops));
        }
        i2 = i2 + 1;
    }
    proof {
        assert(newv.ops.take(n_new as int) =~= newv.ops);
    }

    let mut changed: Vec<OperationChange> = Vec::new();
    let mut saw_breaking: bool = false;
    let mut i3: usize = 0;
    proof {
        assert(changes_view(changed@) =~= changed_entries(
            oldv.ops.take(0),
            newv.ops,
            oldv.schemas,
            newv.schemas,
        ));
    }
    while i3 < n_old
        invariant
            0 <= i3 <= n_old,
            n_old == old.ops@.len(),
            oldv == old@,
            newv == new@,
            old@.wf(),
            new@.wf(),
            changes_view(changed@) == changed_entries(
                oldv.ops.take(i3 as int),
                newv.ops,
                oldv.schemas,
                newv.schemas,
            ),
            saw_breaking == some_breaking(changes_view(changed@)),
            forall|p: int|
                0 <= p < i3 && contains_op(newv.ops, (#[trigger] oldv.ops[p]).id)
                    ==> op_refs_resolve(
                    oldv.ops[p],
                    find_op(newv.ops, oldv.ops[p].id)->Some_0,
                    oldv.schemas,
                    newv.schemas,
                ),
        decreases n_old - i3,
    {
        proof {
            assert(oldv.ops.take(i3 as int + 1).drop_last() =~= oldv.ops.take(i3 as int));
            assert(oldv.ops.take(i3 as int + 1).last() == oldv.ops[i3 as int]);
            assert(oldv.ops[i3 as int] == old.ops@[i3 as int]@);
        }
        let (k, found) = crate::registry::locate_op(&new.ops, old.ops[i3].id.as_str());
        if found {
            proof {
                lemma_find_op_at(newv.ops, oldv.ops[i3 as int].id, k as int);
                assert(newv.ops[k as int] == new.ops@[k as int]@);
            }
            match operation_changes(&old.ops[i3], &new.ops[k], &old.schemas, &new.schemas) {
                Err(_) => {
                    proof {
                        assert(!op_refs_resolve(
                            oldv.ops[i3 as int],
                            find_op(newv.ops, oldv.ops[i3 as int].id)->Some_0,
                            oldv.schemas,
                            newv.schemas,
                        ));
                    }
                    return Err(DiffError::SnapshotMismatch);
                },
                Ok(details) => {
                    if details.len() > 0 {
                        let has_breaking = any_breaking_in(&details);
                        let ghost prev = changed@;
                        let ghost entry = ChangeView {
                            id: oldv.ops[i3 as int].id,
                            details: details@,
                        };
                        changed.push(OperationChange {
                            operation_id: old.ops[i3].id.clone(),
                            details,
                        });
                        proof {
                            assert(changes_view(changed@) =~= changes_view(prev).push(entry));
                            let cv = changes_view(prev);
                            let cv2 = changes_view(changed@);
                            if some_breaking(cv) {
                                let (p, q) = choose|p: int, q: int|
                                    0 <= p < cv.len() && 0 <= q < cv[p].details.len()
                                        && detail_breaking(#[trigger] cv[p].details[q]);
                                assert(cv2[p] == cv[p]);
                                assert(detail_breaking(cv2[p].details[q]));
                            }
                            if has_breaking {
                                let q = choose|q: int|
                                    0 <= q < details@.len() && detail_breaking(
                                        #[trigger] details@[q],
                                    );
                                assert(cv2[cv.len() as int] == entry);
                                assert(detail_breaking(cv2[cv.len() as int].details[q]));
                            }
                            if some_breaking(cv2) && !some_breaking(cv) && !has_breaking {
                                let (p, q) = choose|p: int, q: int|
                                    0 <= p < cv2.len() && 0 <= q < cv2[p].details.len()
                                        && detail_breaking(#[trigger] cv2[p].details[q]);
                                if p < cv.len() {
                                    assert(cv[p] == cv2[p]);
                                    assert(detail_breaking(cv[p].details[q]));
                                } else {
                                    assert(cv2[p] == entry);
                                    assert(detail_breaking(details@[q]));
                                }
                            }
                        }
                        saw_breaking = saw_breaking || has_breaking;
                    }
                },
            }
        }
        proof {
            assert(changes_view(changed@) =~= changed_entries(
                oldv.ops.take(i3 as int + 1),
                newv.ops,
                oldv.schemas,
                newv.schemas,
            ));
        }
        i3 = i3 + 1;
    }
    proof {
        assert(oldv.ops.take(n_old as int) =~= oldv.ops);
    }

    let verdict = if removed.len() > 0 || saw_breaking {
        Verdict::Breaking
    } else {
        Verdict::Compatible
    };
    proof {
        assert(strings_view(removed@).len() == removed@.len());
    }
    let result = DiffResult { added, removed, changed, verdict };
    proof {
        assert(result@ == spec_diff(oldv, newv));
    }
    Ok(result)
}

// ---------------------------------------------------------------------------
// Signatures
// ---------------------------------------------------------------------------

/// The view of an operation the differ compares: its identity plus its
/// response status codes and security requirement names, each as a sorted,
/// duplicate-free list.
pub struct Signature {
    pub operation_id: String,
    pub method: HttpMethod,
    pub path: String,
    pub response_codes: Vec<u16>,
    pub security: Vec<String>,
}

/// Inserts a status code into a strictly sorted list, keeping it a sorted
/// set.
fn insert_code(codes: &mut Vec<u16>, st: u16)
    requires
        forall|p: int, q: int|
            0 <= p < q < old(codes)@.len() ==> old(codes)@[p] < old(codes)@[q],
    ensures
        forall|p: int, q: int|
            0 <= p < q < final(codes)@.len() ==> final(codes)@[p] < final(codes)@[q],
        forall|x: u16|
            final(codes)@.contains(x) <==> old(codes)@.contains(x) || x == st,
{
    let n = codes.len();
    let mut k: usize = 0;
    while k < n && codes[k] < st
        invariant
            0 <= k <= n,
            n == codes@.len(),
            codes@ == old(codes)@,
            forall|p: int| 0 <= p < k ==> codes@[p] < st,
        decreases n - k,
    {
        k = k + 1;
    }
    if k < n && codes[k] == st {
        proof {
            assert(codes@.contains(st));
        }
        return;
    }
    let ghost before = codes@;
    codes.insert(k, st);
    proof {
        before.insert_ensures(k as int, st);
        let after = codes@;
        assert forall|p: int, q: int|
            0 <= p < q < after.len() implies after[p] < after[q] by {
            if q == k {
                assert(after[p] == before[p]);
            } else if p == k {
                assert(after[q] == before[q - 1]);
            } else if p < k && q > k {
                assert(after[p] == before[p]);
                assert(after[q] == before[q - 1]);
            }
        }
        assert forall|x: u16|
            after.contains(x) <==> before.contains(x) || x == st by {
            if after.contains(x) {
                let w = choose|w: int| 0 <= w < after.len() && after[w] == x;
                if w < k {
                    assert(before[w] == x);
                } else if w > k {
                    assert(before[w - 1] == x);
                }
            }
            if before.contains(x) {
                let w = choose|w: int| 0 <= w < before.len() && before[w] == x;
                if w < k {
                    assert(after[w] == x);
                } else {
                    assert(after[w + 1] == x);
                }
            }
            if x == st {
                assert(after[k as int] == x);
            }
        }
    }
}

/// Inserts a name into a lexicographically strictly sorted list, keeping it
/// a sorted set.
fn insert_name(names: &mut Vec<String>, x: String)
    requires
        forall|p: int, q: int|
            0 <= p < q < strings_view(old(names)@).len() ==> lex_lt(
                strings_view(old(names)@)[p],
                strings_view(old(names)@)[q],
            ),
    ensures
        forall|p: int, q: int|
            0 <= p < q < strings_view(final(names)@).len() ==> lex_lt(
                strings_view(final(names)@)[p],
                strings_view(final(names)@)[q],
            ),
        forall|y: Seq<char>|
            name_in(strings_view(final(names)@), y) <==> name_in(strings_view(old(names)@), y)
                || y == x@,
{
    let n = names.len();
    let mut k: usize = 0;
    while k < n && str_is_less(names[k].as_str(), x.as_str())
        invariant
            0 <= k <= n,
            n == names@.len(),
            names@ == old(names)@,
            forall|p: int| 0 <= p < k ==> lex_lt(strings_view(names@)[p], x@),
        decreases n - k,
    {
        assert(strings_view(names@)[k as int] == names@[k as int]@);
        k = k + 1;
    }
    proof {
        if k < names@.len() {
            assert(strings_view(names@)[k as int] == names@[k as int]@);
        }
    }
    if k < n && string_eq(&names[k], &x) {
        proof {
            assert(strings_view(names@)[k as int] == x@);
            assert(name_in(strings_view(names@), x@));
        }
        return;
    }
    proof {
        if k < names@.len() {
            crate::order::lemma_lex_trichotomy(strings_view(names@)[k as int], x@);
            assert(lex_lt(x@, strings_view(names@)[k as int]));
        }
    }
    let ghost before = strings_view(names@);
    names.insert(k, x);
    proof {
        let after = strings_view(names@);
        assert(after =~= before.insert(k as int, x@));
        before.insert_ensures(k as int, x@);
        assert forall|p: int, q: int|
            0 <= p < q < after.len() implies lex_lt(after[p], after[q]) by {
            if q == k {
                assert(after[p] == before[p]);
            } else if p == k {
                assert(after[q] == before[q - 1]);
                if q - 1 > k {
                    lemma_lex_transitive(x@, before[k as int], before[q - 1]);
                }
            } else if p < k && q > k {
                assert(after[p] == before[p]);
                assert(after[q] == before[q - 1]);
            }
        }
        assert forall|y: Seq<char>|
            name_in(after, y) <==> name_in(before, y) || y == x@ by {
            if name_in(after, y) {
                let w = choose|w: int| 0 <= w < after.len() && after[w] == y;
                if w < k {
                    assert(before[w] == y);
                } else if w > k {
                    assert(before[w - 1] == y);
                }
            }
            if name_in(before, y) {
                let w = choose|w: int| 0 <= w < before.len() && before[w] == y;
                if w < k {
                    assert(after[w] == y);
                } else {
                    assert(after[w + 1] == y);
                }
            }
            if y == x@ {
                assert(after[k as int] == y);
            }
        }
    }
}

/// Whether the first string orders strictly below the second.
fn str_is_less(a: &str, b: &str) -> (r: bool)
    ensures
        r == lex_lt(a@, b@),
{
    match str_compare(a, b) {
        StrOrder::Less => true,
        _ => false,
    }
}

impl OperationDescriptor {
    /// The signature view the differ compares: the operation id, method and
    /// path, the set of response status codes and the set of security
    /// requirement names, the sets sorted for stable reports.
    pub fn signature(&self) -> (r: Signature)
        ensures
            r.operation_id@ == self@.id,
            r.method == self@.method,
            r.path@ == self@.path,
            forall|p: int, q: int|
                0 <= p < q < r.response_codes@.len() ==> r.response_codes@[p]
                    < r.response_codes@[q],
            forall|x: u16| r.response_codes@.contains(x) <==> has_status(self@.responses, x),
            forall|p: int, q: int|
                0 <= p < q < strings_view(r.security@).len() ==> lex_lt(
                    strings_view(r.security@)[p],
                    strings_view(r.security@)[q],
                ),
            forall|y: Seq<char>|
                name_in(strings_view(r.security@), y) <==> name_in(self@.security, y),
    {
        let mut codes: Vec<u16> = Vec::new();
        let m = self.responses.len();
        let mut i: usize = 0;
        while i < m
            invariant
                0 <= i <= m,
                m == self.responses@.len(),
                forall|p: int, q: int| 0 <= p < q < codes@.len() ==> codes@[p] < codes@[q],
                forall|x: u16|
                    codes@.contains(x) <==> has_status(
                        responses_view(self.responses@).take(i as int),
                        x,
                    ),
            decreases m - i,
        {
            let ghost rv = responses_view(self.responses@);
            proof {
                assert(rv[i as int] == self.responses@[i as int]@);
            }
            let ghost before = codes@;
            insert_code(&mut codes, self.responses[i].status);
            proof {
                assert forall|x: u16|
                    codes@.contains(x) <==> has_status(rv.take(i as int + 1), x) by {
                    if has_status(rv.take(i as int + 1), x) {
                        let w = choose|w: int|
                            0 <= w < rv.take(i as int + 1).len() && (#[trigger] rv.take(
                                i as int + 1,
                            )[w]).status == x;
                        if w < i {
                            assert(rv.take(i as int)[w].status == x);
                        }
                    }
                    if has_status(rv.take(i as int), x) {
                        let w = choose|w: int|
                            0 <= w < rv.take(i as int).len() && (#[trigger] rv.take(
                                i as int,
                            )[w]).status == x;
                        assert(rv.take(i as int + 1)[w].status == x);
                    }
                    if x == rv[i as int].status {
                        assert(rv.take(i as int + 1)[i as int].status == x);
                    }
                }
            }
            i = i + 1;
        }
        proof {
            assert(responses_view(self.responses@).take(m as int)
                =~= responses_view(self.responses@));
        }
        let mut names: Vec<String> = Vec::new();
        let sn = self.security.len();
        let mut j: usize = 0;
        while j < sn
            invariant
                0 <= j <= sn,
                sn == self.security@.len(),
                forall|p: int, q: int|
                    0 <= p < q < strings_view(names@).len() ==> lex_lt(
                        strings_view(names@)[p],
                        strings_view(names@)[q],
                    ),
                forall|y: Seq<char>|
                    name_in(strings_view(names@), y) <==> name_in(
                        strings_view(self.security@).take(j as int),
                        y,
                    ),
            decreases sn - j,
        {
            let ghost sv = strings_view(self.security@);
            proof {
                assert(sv[j as int] == self.security@[j as int]@);
            }
            insert_name(&mut names, self.security[j].clone());
            proof {
                assert forall|y: Seq<char>|
                    name_in(strings_view(names@), y) <==> name_in(sv.take(j as int + 1), y) by {
                    if name_in(sv.take(j as int + 1), y) {
                        let w = choose|w: int|
                            0 <= w < sv.take(j as int + 1).len() && #[trigger] sv.take(
                                j as int + 1,
                            )[w] == y;
                        if w < j {
                            assert(sv.take(j as int)[w] == y);
                        }
                    }
                    if name_in(sv.take(j as int), y) {
                        let w = choose|w: int|
                            0 <= w < sv.take(j as int).len() && #[trigger] sv.take(j as int)[w]
                                == y;
                        assert(sv.take(j as int + 1)[w] == y);
                    }
                    if y == sv[j as int] {
                        assert(sv.take(j as int + 1)[j as int] == y);
                    }
                }
            }
            j = j + 1;
        }
        proof {
            assert(strings_view(self.security@).take(sn as int)
                =~= strings_view(self.security@));
        }
        Signature {
            operation_id: self.id.clone(),
            method: self.method,
            path: self.path.clone(),
            response_codes: codes,
            security: names,
        }
    }
}

} // verus!
