//! The laws of the registry and the differ, proved once and for all: export
//! determinism, the empty diff of identical snapshots, the classification of
//! fresh and of removed operations, and the breaking force of a deleted
//! required field.

use vstd::prelude::*;
use crate::model::{OperationView, ResponseView, SchemaView, statuses_unique};
use crate::registry::{
    SnapshotView, all_dangling, contains_op, contains_schema, find_op, find_schema,
    lemma_find_op_at, lemma_insert_op, op_dangling, ops_sorted, response_dangling,
};
use crate::order::lex_lt;
use crate::diff::{
    ChangeDetail, ChangeView, Verdict, added_ids, body_change, body_changes, changed_entries,
    detail_breaking, field_matched, find_response, has_field, has_status,
    lemma_find_response_skip, method_path_changes, op_changes, added_code_changes,
    op_refs_resolve, refs_resolve, removed_code_changes, removed_ids, response_refs_resolve,
    same_name_set, schema_breaking_change, schema_equiv, security_changes, some_breaking,
    spec_diff,
};

verus! {

/// Exporting a registry is deterministic: two documents exported from the
/// same registry are identical.
pub proof fn lemma_export_deterministic(r: SnapshotView, d1: SnapshotView, d2: SnapshotView)
    requires
        d1 == r,
        d2 == r,
    ensures
        d1 == d2,
{
}

/// When every old operation id still exists, nothing is removed.
proof fn lemma_removed_ids_empty(old_ops: Seq<OperationView>, new_ops: Seq<OperationView>)
    requires
        forall|i: int| 0 <= i < old_ops.len() ==> contains_op(new_ops, (#[trigger] old_ops[i]).id),
    ensures
        removed_ids(old_ops, new_ops) == Seq::<Seq<char>>::empty(),
    decreases old_ops.len(),
{
    if old_ops.len() > 0 {
        lemma_removed_ids_empty(old_ops.drop_last(), new_ops);
        assert(contains_op(new_ops, old_ops.last().id));
        assert(removed_ids(old_ops, new_ops) =~= Seq::<Seq<char>>::empty());
    } else {
        assert(removed_ids(old_ops, new_ops) =~= Seq::<Seq<char>>::empty());
    }
}

/// When every new operation id already existed, nothing is added.
proof fn lemma_added_ids_empty(new_ops: Seq<OperationView>, old_ops: Seq<OperationView>)
    requires
        forall|i: int| 0 <= i < new_ops.len() ==> contains_op(old_ops, (#[trigger] new_ops[i]).id),
    ensures
        added_ids(new_ops, old_ops) == Seq::<Seq<char>>::empty(),
    decreases new_ops.len(),
{
    if new_ops.len() > 0 {
        lemma_added_ids_empty(new_ops.drop_last(), old_ops);
        assert(contains_op(old_ops, new_ops.last().id));
        assert(added_ids(new_ops, old_ops) =~= Seq::<Seq<char>>::empty());
    } else {
        assert(added_ids(new_ops, old_ops) =~= Seq::<Seq<char>>::empty());
    }
}

/// A found status yields a first response carrying that status, and the
/// response is an element of the sequence.
proof fn lemma_find_response_found(rs: Seq<ResponseView>, st: u16)
    ensures
        find_response(rs, st) is Some <==> has_status(rs, st),
        find_response(rs, st) matches Some(or) ==> or.status == st && exists|p: int|
            0 <= p < rs.len() && rs[p] == or,
    decreases rs.len(),
{
    if rs.len() > 0 {
        lemma_find_response_found(rs.drop_first(), st);
        if rs[0].status == st {
            assert(rs[0] == rs[0]);
        } else {
            if has_status(rs, st) {
                let w = choose|p: int| 0 <= p < rs.len() && rs[p].status == st;
                assert(rs.drop_first()[w - 1].status == st);
                assert(has_status(rs.drop_first(), st));
            }
            if find_response(rs, st) is Some {
                let or = find_response(rs, st)->Some_0;
                let p = choose|p: int| 0 <= p < rs.drop_first().len() && rs.drop_first()[p] == or;
                assert(rs[p + 1] == or);
            }
        }
    }
}

/// With unique statuses, the response at any position is the first response
/// carrying its status.
proof fn lemma_find_response_at(rs: Seq<ResponseView>, k: int)
    requires
        statuses_unique(rs),
        0 <= k < rs.len(),
    ensures
        find_response(rs, rs[k].status) == Some(rs[k]),
{
    assert forall|p: int| 0 <= p < k implies (#[trigger] rs[p]).status != rs[k].status by {
        assert(rs[p].status != rs[k].status);
    }
    lemma_find_response_skip(rs, rs[k].status, k);
    assert(rs.skip(k)[0] == rs[k]);
}

/// When every old status is still present, no response code is removed.
proof fn lemma_removed_codes_empty(rs1: Seq<ResponseView>, rs2: Seq<ResponseView>)
    requires
        forall|i: int| 0 <= i < rs1.len() ==> has_status(rs2, (#[trigger] rs1[i]).status),
    ensures
        removed_code_changes(rs1, rs2) == Seq::<ChangeDetail>::empty(),
    decreases rs1.len(),
{
    if rs1.len() > 0 {
        lemma_removed_codes_empty(rs1.drop_last(), rs2);
        assert(has_status(rs2, rs1.last().status));
        assert(removed_code_changes(rs1, rs2) =~= Seq::<ChangeDetail>::empty());
    } else {
        assert(removed_code_changes(rs1, rs2) =~= Seq::<ChangeDetail>::empty());
    }
}

/// When every new status was already present, no response code is added.
proof fn lemma_added_codes_empty(rs1: Seq<ResponseView>, rs2: Seq<ResponseView>)
    requires
        forall|i: int| 0 <= i < rs2.len() ==> has_status(rs1, (#[trigger] rs2[i]).status),
    ensures
        added_code_changes(rs1, rs2) == Seq::<ChangeDetail>::empty(),
    decreases rs2.len(),
{
    if rs2.len() > 0 {
        lemma_added_codes_empty(rs1, rs2.drop_last());
        assert(has_status(rs1, rs2.last().status));
        assert(added_code_changes(rs1, rs2) =~= Seq::<ChangeDetail>::empty());
    } else {
        assert(added_code_changes(rs1, rs2) =~= Seq::<ChangeDetail>::empty());
    }
}

/// Structural schema equality is reflexive.
proof fn lemma_schema_equiv_reflexive(s: SchemaView)
    ensures
        schema_equiv(s, s),
{
}

/// Comparing a prefix of an operation's responses against the operation's own
/// response list yields no body change.
proof fn lemma_body_changes_self(
    rs: Seq<ResponseView>,
    full: Seq<ResponseView>,
    schemas: Seq<SchemaView>,
)
    requires
        forall|i: int|
            0 <= i < rs.len() ==> find_response(full, (#[trigger] rs[i]).status) == Some(rs[i]),
    ensures
        body_changes(rs, full, schemas, schemas) == Seq::<ChangeDetail>::empty(),
    decreases rs.len(),
{
    if rs.len() > 0 {
        lemma_body_changes_self(rs.drop_last(), full, schemas);
        let or = rs.last();
        assert(find_response(full, or.status) == Some(or));
        lemma_find_response_found(full, or.status);
        assert(has_status(full, or.status));
        match or.schema {
            Some(a) => {
                match find_schema(schemas, a) {
                    Some(sa) => {
                        lemma_schema_equiv_reflexive(sa);
                        assert(body_change(or, full, schemas, schemas)
                            =~= Seq::<ChangeDetail>::empty());
                    },
                    None => {
                        assert(body_change(or, full, schemas, schemas)
                            =~= Seq::<ChangeDetail>::empty());
                    },
                }
            },
            None => {
                assert(body_change(or, full, schemas, schemas) =~= Seq::<ChangeDetail>::empty());
            },
        }
        assert(body_changes(rs, full, schemas, schemas) =~= Seq::<ChangeDetail>::empty());
    } else {
        assert(body_changes(rs, full, schemas, schemas) =~= Seq::<ChangeDetail>::empty());
    }
}

/// Comparing a well-formed operation against itself yields no change.
proof fn lemma_op_changes_self(o: OperationView, schemas: Seq<SchemaView>)
    requires
        o.wf(),
    ensures
        op_changes(o, o, schemas, schemas) == Seq::<ChangeDetail>::empty(),
{
    assert(method_path_changes(o, o) =~= Seq::<ChangeDetail>::empty());
    assert forall|i: int|
        0 <= i < o.responses.len() implies has_status(o.responses, (#[trigger] o.responses[i]).status) by {
        assert(o.responses[i].status == o.responses[i].status);
    }
    lemma_removed_codes_empty(o.responses, o.responses);
    lemma_added_codes_empty(o.responses, o.responses);
    assert forall|i: int|
        0 <= i < o.responses.len() implies find_response(
        o.responses,
        (#[trigger] o.responses[i]).status,
    ) == Some(o.responses[i]) by {
        lemma_find_response_at(o.responses, i);
    }
    lemma_body_changes_self(o.responses, o.responses, schemas);
    assert(same_name_set(o.security, o.security));
    assert(security_changes(o, o) =~= Seq::<ChangeDetail>::empty());
    assert(op_changes(o, o, schemas, schemas) =~= Seq::<ChangeDetail>::empty());
}

/// When every old operation finds itself, unchanged, in the new snapshot and
/// the schemas are shared, nothing is reported as changed.
proof fn lemma_changed_entries_empty(
    old_ops: Seq<OperationView>,
    new_ops: Seq<OperationView>,
    schemas: Seq<SchemaView>,
)
    requires
        forall|i: int| 0 <= i < old_ops.len() ==> (#[trigger] old_ops[i]).wf(),
        forall|i: int|
            0 <= i < old_ops.len() ==> find_op(new_ops, (#[trigger] old_ops[i]).id) == Some(
                old_ops[i],
            ),
    ensures
        changed_entries(old_ops, new_ops, schemas, schemas) == Seq::<ChangeView>::empty(),
    decreases old_ops.len(),
{
    if old_ops.len() > 0 {
        lemma_changed_entries_empty(old_ops.drop_last(), new_ops, schemas);
        let o = old_ops.last();
        assert(find_op(new_ops, o.id) == Some(o));
        if contains_op(new_ops, o.id) {
            lemma_op_changes_self(o, schemas);
        }
    }
}

/// Diffing a well-formed snapshot against itself yields an empty diff and the
/// compatible verdict.
pub proof fn lemma_diff_identical(d: SnapshotView)
    requires
        d.wf(),
    ensures
        spec_diff(d, d).added == Seq::<Seq<char>>::empty(),
        spec_diff(d, d).removed == Seq::<Seq<char>>::empty(),
        spec_diff(d, d).changed == Seq::<ChangeView>::empty(),
        spec_diff(d, d).verdict == Verdict::Compatible,
{
    assert forall|i: int|
        0 <= i < d.ops.len() implies contains_op(d.ops, (#[trigger] d.ops[i]).id) by {
        assert(d.ops[i].id == d.ops[i].id);
    }
    lemma_removed_ids_empty(d.ops, d.ops);
    lemma_added_ids_empty(d.ops, d.ops);
    assert forall|i: int|
        0 <= i < d.ops.len() implies find_op(d.ops, (#[trigger] d.ops[i]).id) == Some(d.ops[i]) by {
        lemma_find_op_at(d.ops, d.ops[i].id, i);
    }
    lemma_changed_entries_empty(d.ops, d.ops, d.schemas);
}

/// An operation id present in the old snapshot and absent in the new one is
/// reported as removed, and the verdict is breaking.
pub proof fn lemma_removed_operation_breaks(old: SnapshotView, new: SnapshotView, id: Seq<char>)
    requires
        contains_op(old.ops, id),
        !contains_op(new.ops, id),
    ensures
        spec_diff(old, new).removed.contains(id),
        spec_diff(old, new).verdict == Verdict::Breaking,
{
    lemma_removed_ids_member(old.ops, new.ops, id);
    assert(spec_diff(old, new).removed.len() > 0);
}

/// The id of any lost operation appears in the removed list.
proof fn lemma_removed_ids_member(
    old_ops: Seq<OperationView>,
    new_ops: Seq<OperationView>,
    id: Seq<char>,
)
    requires
        contains_op(old_ops, id),
        !contains_op(new_ops, id),
    ensures
        removed_ids(old_ops, new_ops).contains(id),
    decreases old_ops.len(),
{
    let w = choose|i: int| 0 <= i < old_ops.len() && old_ops[i].id == id;
    if w == old_ops.len() - 1 {
        let r = removed_ids(old_ops, new_ops);
        assert(r.last() == id);
        assert(r.contains(id));
    } else {
        assert(old_ops.drop_last()[w].id == id);
        assert(contains_op(old_ops.drop_last(), id));
        lemma_removed_ids_member(old_ops.drop_last(), new_ops, id);
        let prior = removed_ids(old_ops.drop_last(), new_ops);
        let q = choose|q: int| 0 <= q < prior.len() && prior[q] == id;
        assert(removed_ids(old_ops, new_ops)[q] == id);
        assert(removed_ids(old_ops, new_ops).contains(id));
    }
}

/// Inserting a fresh operation makes the added list of the insertion alone.
proof fn lemma_added_ids_insert(
    u: Seq<OperationView>,
    op: OperationView,
    k: int,
    old_ops: Seq<OperationView>,
)
    requires
        0 <= k <= u.len(),
        forall|i: int| 0 <= i < u.len() ==> contains_op(old_ops, (#[trigger] u[i]).id),
        !contains_op(old_ops, op.id),
    ensures
        added_ids(u.insert(k, op), old_ops) == seq![op.id],
    decreases u.len(),
{
    let t = u.insert(k, op);
    u.insert_ensures(k, op);
    if k == u.len() {
        assert(t.drop_last() =~= u);
        assert(t.last() == op);
        lemma_added_ids_empty(u, old_ops);
        assert(added_ids(t, old_ops) =~= seq![op.id]);
    } else {
        assert(t.last() == u.last());
        assert(t.drop_last() =~= u.drop_last().insert(k, op));
        assert(contains_op(old_ops, u.last().id));
        assert forall|i: int|
            0 <= i < u.drop_last().len() implies contains_op(
            old_ops,
            (#[trigger] u.drop_last()[i]).id,
        ) by {
            assert(u.drop_last()[i] == u[i]);
        }
        lemma_added_ids_insert(u.drop_last(), op, k, old_ops);
        assert(added_ids(t, old_ops) =~= seq![op.id]);
    }
}

/// Adding one operation descriptor with a fresh operation id reports exactly
/// that id as added, nothing as removed or changed, and the compatible
/// verdict.
pub proof fn lemma_fresh_operation_added(
    old: SnapshotView,
    new: SnapshotView,
    op: OperationView,
    k: int,
)
    requires
        old.wf(),
        op.wf(),
        !contains_op(old.ops, op.id),
        0 <= k <= old.ops.len(),
        forall|i: int| 0 <= i < k ==> lex_lt((#[trigger] old.ops[i]).id, op.id),
        k < old.ops.len() ==> lex_lt(op.id, old.ops[k].id),
        new.ops == old.ops.insert(k, op),
        new.schemas == old.schemas,
    ensures
        spec_diff(old, new).added == seq![op.id],
        spec_diff(old, new).removed == Seq::<Seq<char>>::empty(),
        spec_diff(old, new).changed == Seq::<ChangeView>::empty(),
        spec_diff(old, new).verdict == Verdict::Compatible,
{
    lemma_insert_op(old.ops, op, k);
    old.ops.insert_ensures(k, op);
    assert forall|i: int|
        0 <= i < old.ops.len() implies contains_op(new.ops, (#[trigger] old.ops[i]).id) by {
        let pos: int = if i < k {
            i
        } else {
            i + 1
        };
        assert(new.ops[pos] == old.ops[i]);
    }
    lemma_removed_ids_empty(old.ops, new.ops);
    assert forall|i: int|
        0 <= i < old.ops.len() implies contains_op(old.ops, (#[trigger] old.ops[i]).id) by {
        assert(old.ops[i].id == old.ops[i].id);
    }
    lemma_added_ids_insert(old.ops, op, k, old.ops);
    assert forall|i: int|
        0 <= i < old.ops.len() implies find_op(new.ops, (#[trigger] old.ops[i]).id) == Some(
        old.ops[i],
    ) by {
        let pos: int = if i < k {
            i
        } else {
            i + 1
        };
        assert(new.ops[pos] == old.ops[i]);
        lemma_find_op_at(new.ops, old.ops[i].id, pos);
    }
    lemma_changed_entries_empty(old.ops, new.ops, old.schemas);
}

/// Every change detail of one compared response surfaces in the body changes
/// of the whole operation.
proof fn lemma_body_changes_member(
    old_rs: Seq<ResponseView>,
    new_rs: Seq<ResponseView>,
    olds: Seq<SchemaView>,
    news: Seq<SchemaView>,
    p: int,
    x: ChangeDetail,
)
    requires
        0 <= p < old_rs.len(),
        has_status(new_rs, old_rs[p].status),
        body_change(old_rs[p], new_rs, olds, news).contains(x),
    ensures
        body_changes(old_rs, new_rs, olds, news).contains(x),
    decreases old_rs.len(),
{
    let whole = body_changes(old_rs, new_rs, olds, news);
    let prior = body_changes(old_rs.drop_last(), new_rs, olds, news);
    if p == old_rs.len() - 1 {
        let bc = body_change(old_rs[p], new_rs, olds, news);
        let q = choose|q: int| 0 <= q < bc.len() && bc[q] == x;
        assert(whole[prior.len() + q] == x);
        assert(whole.contains(x));
    } else {
        assert(old_rs.drop_last()[p] == old_rs[p]);
        lemma_body_changes_member(old_rs.drop_last(), new_rs, olds, news, p, x);
        let q = choose|q: int| 0 <= q < prior.len() && prior[q] == x;
        assert(whole[q] == x);
        assert(whole.contains(x));
    }
}

/// Every common operation whose comparison yields details surfaces as one
/// entry of the changed list.
proof fn lemma_changed_entries_member(
    old_ops: Seq<OperationView>,
    new_ops: Seq<OperationView>,
    olds: Seq<SchemaView>,
    news: Seq<SchemaView>,
    i: int,
)
    requires
        0 <= i < old_ops.len(),
        contains_op(new_ops, old_ops[i].id),
        op_changes(old_ops[i], find_op(new_ops, old_ops[i].id)->Some_0, olds, news).len() > 0,
    ensures
        changed_entries(old_ops, new_ops, olds, news).contains(
            ChangeView {
                id: old_ops[i].id,
                details: op_changes(
                    old_ops[i],
                    find_op(new_ops, old_ops[i].id)->Some_0,
                    olds,
                    news,
                ),
            },
        ),
    decreases old_ops.len(),
{
    let whole = changed_entries(old_ops, new_ops, olds, news);
    let prior = changed_entries(old_ops.drop_last(), new_ops, olds, news);
    let entry = ChangeView {
        id: old_ops[i].id,
        details: op_changes(old_ops[i], find_op(new_ops, old_ops[i].id)->Some_0, olds, news),
    };
    if i == old_ops.len() - 1 {
        assert(whole.last() == entry);
        assert(whole.contains(entry));
    } else {
        assert(old_ops.drop_last()[i] == old_ops[i]);
        lemma_changed_entries_member(old_ops.drop_last(), new_ops, olds, news, i);
        let q = choose|q: int| 0 <= q < prior.len() && prior[q] == entry;
        assert(whole[q] == entry);
        assert(whole.contains(entry));
    }
}

/// Deleting a required field from a schema referenced, under a common status
/// code, by an operation present in both snapshots makes the verdict
/// breaking.
pub proof fn lemma_required_field_removed_breaks(
    old: SnapshotView,
    new: SnapshotView,
    i: int,
    st: u16,
    f: int,
)
    requires
        old.wf(),
        new.wf(),
        0 <= i < old.ops.len(),
        contains_op(new.ops, old.ops[i].id),
        has_status(old.ops[i].responses, st),
        has_status(find_op(new.ops, old.ops[i].id)->Some_0.responses, st),
        ({
            let o = old.ops[i];
            let n = find_op(new.ops, o.id)->Some_0;
            let or = find_response(o.responses, st)->Some_0;
            let nr = find_response(n.responses, st)->Some_0;
            &&& or.schema is Some
            &&& nr.schema is Some
            &&& find_schema(old.schemas, or.schema->Some_0) is Some
            &&& find_schema(new.schemas, nr.schema->Some_0) is Some
            &&& {
                let sa = find_schema(old.schemas, or.schema->Some_0)->Some_0;
                let sb = find_schema(new.schemas, nr.schema->Some_0)->Some_0;
                0 <= f < sa.fields.len() && sa.fields[f].required && !has_field(
                    sb.fields,
                    sa.fields[f].name,
                )
            }
        }),
    ensures
        spec_diff(old, new).verdict == Verdict::Breaking,
{
    let o = old.ops[i];
    let n = find_op(new.ops, o.id)->Some_0;
    let or = find_response(o.responses, st)->Some_0;
    let nr = find_response(n.responses, st)->Some_0;
    let sa = find_schema(old.schemas, or.schema->Some_0)->Some_0;
    let sb = find_schema(new.schemas, nr.schema->Some_0)->Some_0;
    assert(sa.fields[f].required && !has_field(sb.fields, sa.fields[f].name));
    assert(schema_breaking_change(sa, sb));
    if schema_equiv(sa, sb) {
        assert(field_matched(sa.fields[f], sb.fields));
        let w = choose|w: int|
            0 <= w < sb.fields.len() && sb.fields[w].name == sa.fields[f].name
                && sb.fields[w].ty == sa.fields[f].ty && sb.fields[w].required == sa.fields[
            f].required;
        assert(has_field(sb.fields, sa.fields[f].name));
    }
    assert(!schema_equiv(sa, sb));
    lemma_find_response_found(o.responses, st);
    lemma_find_response_found(n.responses, st);
    assert(or.status == st);
    let x = ChangeDetail::ResponseSchemaBreaking(st);
    let bc = body_change(or, n.responses, old.schemas, new.schemas);
    assert(bc == seq![x]);
    assert(bc[0] == x);
    assert(bc.contains(x));
    let p = choose|p: int| 0 <= p < o.responses.len() && o.responses[p] == or;
    lemma_body_changes_member(o.responses, n.responses, old.schemas, new.schemas, p, x);
    let mpc = method_path_changes(o, n);
    let rcc = removed_code_changes(o.responses, n.responses);
    let acc = added_code_changes(o.responses, n.responses);
    let bcs = body_changes(o.responses, n.responses, old.schemas, new.schemas);
    let d = op_changes(o, n, old.schemas, new.schemas);
    let q = choose|q: int| 0 <= q < bcs.len() && bcs[q] == x;
    let idx = mpc.len() + rcc.len() + acc.len() + q;
    assert(d[idx] == x);
    assert(d.len() > 0);
    lemma_changed_entries_member(old.ops, new.ops, old.schemas, new.schemas, i);
    let entry = ChangeView { id: o.id, details: d };
    let changed = changed_entries(old.ops, new.ops, old.schemas, new.schemas);
    let e = choose|e: int| 0 <= e < changed.len() && changed[e] == entry;
    assert(detail_breaking(changed[e].details[idx]));
    assert(some_breaking(changed));
}

/// An added id exists in the new snapshot and not in the old one.
proof fn lemma_added_ids_membership(
    new_ops: Seq<OperationView>,
    old_ops: Seq<OperationView>,
    id: Seq<char>,
)
    requires
        added_ids(new_ops, old_ops).contains(id),
    ensures
        contains_op(new_ops, id),
        !contains_op(old_ops, id),
    decreases new_ops.len(),
{
    let whole = added_ids(new_ops, old_ops);
    let prior = added_ids(new_ops.drop_last(), old_ops);
    let q = choose|q: int| 0 <= q < whole.len() && whole[q] == id;
    if q < prior.len() {
        assert(prior[q] == id);
        assert(prior.contains(id));
        lemma_added_ids_membership(new_ops.drop_last(), old_ops, id);
        let w = choose|w: int|
            0 <= w < new_ops.drop_last().len() && new_ops.drop_last()[w].id == id;
        assert(new_ops[w].id == id);
    } else {
        assert(!contains_op(old_ops, new_ops.last().id));
        assert(whole[q] == new_ops.last().id);
        assert(new_ops[new_ops.len() - 1].id == id);
    }
}

/// A removed id exists in the old snapshot and not in the new one.
proof fn lemma_removed_ids_membership(
    old_ops: Seq<OperationView>,
    new_ops: Seq<OperationView>,
    id: Seq<char>,
)
    requires
        removed_ids(old_ops, new_ops).contains(id),
    ensures
        contains_op(old_ops, id),
        !contains_op(new_ops, id),
    decreases old_ops.len(),
{
    let whole = removed_ids(old_ops, new_ops);
    let prior = removed_ids(old_ops.drop_last(), new_ops);
    let q = choose|q: int| 0 <= q < whole.len() && whole[q] == id;
    if q < prior.len() {
        assert(prior[q] == id);
        assert(prior.contains(id));
        lemma_removed_ids_membership(old_ops.drop_last(), new_ops, id);
        let w = choose|w: int|
            0 <= w < old_ops.drop_last().len() && old_ops.drop_last()[w].id == id;
        assert(old_ops[w].id == id);
    } else {
        assert(!contains_op(new_ops, old_ops.last().id));
        assert(whole[q] == old_ops.last().id);
        assert(old_ops[old_ops.len() - 1].id == id);
    }
}

/// Some changed entry carries the given operation id.
pub open spec fn changed_has_id(changed: Seq<ChangeView>, id: Seq<char>) -> bool {
    exists|i: int| 0 <= i < changed.len() && changed[i].id == id
}

/// A changed entry's id exists in both snapshots.
proof fn lemma_changed_entries_membership(
    old_ops: Seq<OperationView>,
    new_ops: Seq<OperationView>,
    olds: Seq<SchemaView>,
    news: Seq<SchemaView>,
    id: Seq<char>,
)
    requires
        changed_has_id(changed_entries(old_ops, new_ops, olds, news), id),
    ensures
        contains_op(old_ops, id),
        contains_op(new_ops, id),
    decreases old_ops.len(),
{
    let whole = changed_entries(old_ops, new_ops, olds, news);
    let prior = changed_entries(old_ops.drop_last(), new_ops, olds, news);
    let q = choose|q: int| 0 <= q < whole.len() && whole[q].id == id;
    if q < prior.len() {
        assert(prior[q].id == id);
        assert(changed_has_id(prior, id));
        lemma_changed_entries_membership(old_ops.drop_last(), new_ops, olds, news, id);
        let w = choose|w: int|
            0 <= w < old_ops.drop_last().len() && old_ops.drop_last()[w].id == id;
        assert(old_ops[w].id == id);
    } else {
        assert(whole[q].id == old_ops.last().id);
        assert(contains_op(new_ops, old_ops.last().id));
        assert(old_ops[old_ops.len() - 1].id == id);
    }
}

/// Each operation id appears in at most one bucket of a diff: added,
/// removed, or changed.
pub proof fn lemma_buckets_disjoint(old: SnapshotView, new: SnapshotView, id: Seq<char>)
    ensures
        !(spec_diff(old, new).added.contains(id) && spec_diff(old, new).removed.contains(id)),
        !(spec_diff(old, new).added.contains(id) && changed_has_id(
            spec_diff(old, new).changed,
            id,
        )),
        !(spec_diff(old, new).removed.contains(id) && changed_has_id(
            spec_diff(old, new).changed,
            id,
        )),
{
    if spec_diff(old, new).added.contains(id) {
        lemma_added_ids_membership(new.ops, old.ops, id);
    }
    if spec_diff(old, new).removed.contains(id) {
        lemma_removed_ids_membership(old.ops, new.ops, id);
    }
    if changed_has_id(spec_diff(old, new).changed, id) {
        lemma_changed_entries_membership(old.ops, new.ops, old.schemas, new.schemas, id);
    }
}

/// The added list of a sorted new snapshot is itself sorted.
proof fn lemma_added_ids_sorted(new_ops: Seq<OperationView>, old_ops: Seq<OperationView>)
    requires
        ops_sorted(new_ops),
    ensures
        forall|p: int, q: int|
            0 <= p < q < added_ids(new_ops, old_ops).len() ==> lex_lt(
                added_ids(new_ops, old_ops)[p],
                added_ids(new_ops, old_ops)[q],
            ),
    decreases new_ops.len(),
{
    if new_ops.len() > 0 {
        assert forall|p: int, q: int|
            0 <= p < q < new_ops.drop_last().len() implies lex_lt(
            (#[trigger] new_ops.drop_last()[p]).id,
            (#[trigger] new_ops.drop_last()[q]).id,
        ) by {
            assert(new_ops.drop_last()[p] == new_ops[p]);
            assert(new_ops.drop_last()[q] == new_ops[q]);
        }
        lemma_added_ids_sorted(new_ops.drop_last(), old_ops);
        let whole = added_ids(new_ops, old_ops);
        let prior = added_ids(new_ops.drop_last(), old_ops);
        assert forall|p: int, q: int|
            0 <= p < q < whole.len() implies lex_lt(whole[p], whole[q]) by {
            if q >= prior.len() {
                assert(whole[q] == new_ops.last().id);
                assert(prior[p] == whole[p]);
                assert(prior.contains(whole[p]));
                lemma_added_ids_membership(new_ops.drop_last(), old_ops, whole[p]);
                let w = choose|w: int|
                    0 <= w < new_ops.drop_last().len() && new_ops.drop_last()[w].id == whole[p];
                assert(new_ops[w] == new_ops.drop_last()[w]);
                assert(lex_lt(new_ops[w].id, new_ops.last().id));
            } else {
                assert(whole[p] == prior[p]);
                assert(whole[q] == prior[q]);
            }
        }
    }
}

/// The removed list of a sorted old snapshot is itself sorted.
proof fn lemma_removed_ids_sorted(old_ops: Seq<OperationView>, new_ops: Seq<OperationView>)
    requires
        ops_sorted(old_ops),
    ensures
        forall|p: int, q: int|
            0 <= p < q < removed_ids(old_ops, new_ops).len() ==> lex_lt(
                removed_ids(old_ops, new_ops)[p],
                removed_ids(old_ops, new_ops)[q],
            ),
    decreases old_ops.len(),
{
    if old_ops.len() > 0 {
        assert forall|p: int, q: int|
            0 <= p < q < old_ops.drop_last().len() implies lex_lt(
            (#[trigger] old_ops.drop_last()[p]).id,
            (#[trigger] old_ops.drop_last()[q]).id,
        ) by {
            assert(old_ops.drop_last()[p] == old_ops[p]);
            assert(old_ops.drop_last()[q] == old_ops[q]);
        }
        lemma_removed_ids_sorted(old_ops.drop_last(), new_ops);
        let whole = removed_ids(old_ops, new_ops);
        let prior = removed_ids(old_ops.drop_last(), new_ops);
        assert forall|p: int, q: int|
            0 <= p < q < whole.len() implies lex_lt(whole[p], whole[q]) by {
            if q >= prior.len() {
                assert(whole[q] == old_ops.last().id);
                assert(prior[p] == whole[p]);
                assert(prior.contains(whole[p]));
                lemma_removed_ids_membership(old_ops.drop_last(), new_ops, whole[p]);
                let w = choose|w: int|
                    0 <= w < old_ops.drop_last().len() && old_ops.drop_last()[w].id == whole[p];
                assert(old_ops[w] == old_ops.drop_last()[w]);
                assert(lex_lt(old_ops[w].id, old_ops.last().id));
            } else {
                assert(whole[p] == prior[p]);
                assert(whole[q] == prior[q]);
            }
        }
    }
}

/// The changed list of a sorted old snapshot is sorted by operation id.
proof fn lemma_changed_entries_sorted(
    old_ops: Seq<OperationView>,
    new_ops: Seq<OperationView>,
    olds: Seq<SchemaView>,
    news: Seq<SchemaView>,
)
    requires
        ops_sorted(old_ops),
    ensures
        forall|p: int, q: int|
            0 <= p < q < changed_entries(old_ops, new_ops, olds, news).len() ==> lex_lt(
                changed_entries(old_ops, new_ops, olds, news)[p].id,
                changed_entries(old_ops, new_ops, olds, news)[q].id,
            ),
    decreases old_ops.len(),
{
    if old_ops.len() > 0 {
        assert forall|p: int, q: int|
            0 <= p < q < old_ops.drop_last().len() implies lex_lt(
            (#[trigger] old_ops.drop_last()[p]).id,
            (#[trigger] old_ops.drop_last()[q]).id,
        ) by {
            assert(old_ops.drop_last()[p] == old_ops[p]);
            assert(old_ops.drop_last()[q] == old_ops[q]);
        }
        lemma_changed_entries_sorted(old_ops.drop_last(), new_ops, olds, news);
        let whole = changed_entries(old_ops, new_ops, olds, news);
        let prior = changed_entries(old_ops.drop_last(), new_ops, olds, news);
        let o = old_ops.last();
        if contains_op(new_ops, o.id) && op_changes(
            o,
            find_op(new_ops, o.id)->Some_0,
            olds,
            news,
        ).len() > 0 {
            assert(whole == prior.push(
                ChangeView {
                    id: o.id,
                    details: op_changes(o, find_op(new_ops, o.id)->Some_0, olds, news),
                },
            ));
        } else {
            assert(whole == prior);
        }
        assert forall|p: int, q: int|
            0 <= p < q < whole.len() implies lex_lt(whole[p].id, whole[q].id) by {
            if q >= prior.len() {
                assert(whole[q].id == old_ops.last().id);
                assert(prior[p] == whole[p]);
                assert(changed_has_id(prior, whole[p].id));
                lemma_changed_entries_membership(
                    old_ops.drop_last(),
                    new_ops,
                    olds,
                    news,
                    whole[p].id,
                );
                let w = choose|w: int|
                    0 <= w < old_ops.drop_last().len() && old_ops.drop_last()[w].id == whole[
                    p].id;
                assert(old_ops[w] == old_ops.drop_last()[w]);
                assert(w < old_ops.len() - 1);
                assert(lex_lt(old_ops[w].id, old_ops[old_ops.len() - 1].id));
                assert(lex_lt(whole[p].id, whole[q].id));
            } else {
                assert(whole[p] == prior[p]);
                assert(whole[q] == prior[q]);
                assert(lex_lt(prior[p].id, prior[q].id));
                assert(lex_lt(whole[p].id, whole[q].id));
            }
        }
    }
}

/// The report lists of a diff of well-formed snapshots come out sorted by
/// operation id, for reproducible reports.
pub proof fn lemma_diff_report_sorted(old: SnapshotView, new: SnapshotView)
    requires
        old.wf(),
        new.wf(),
    ensures
        forall|p: int, q: int|
            0 <= p < q < spec_diff(old, new).added.len() ==> lex_lt(
                spec_diff(old, new).added[p],
                spec_diff(old, new).added[q],
            ),
        forall|p: int, q: int|
            0 <= p < q < spec_diff(old, new).removed.len() ==> lex_lt(
                spec_diff(old, new).removed[p],
                spec_diff(old, new).removed[q],
            ),
        forall|p: int, q: int|
            0 <= p < q < spec_diff(old, new).changed.len() ==> lex_lt(
                spec_diff(old, new).changed[p].id,
                spec_diff(old, new).changed[q].id,
            ),
{
    lemma_added_ids_sorted(new.ops, old.ops);
    lemma_removed_ids_sorted(old.ops, new.ops);
    lemma_changed_entries_sorted(old.ops, new.ops, old.schemas, new.schemas);
}

/// A found operation id yields a first operation carrying that id, and the
/// operation is an element of the sequence.
proof fn lemma_find_op_found(ops: Seq<OperationView>, id: Seq<char>)
    ensures
        find_op(ops, id) is Some <==> contains_op(ops, id),
        find_op(ops, id) is Some ==> find_op(ops, id)->Some_0.id == id && exists|w: int|
            0 <= w < ops.len() && ops[w] == find_op(ops, id)->Some_0,
    decreases ops.len(),
{
    if ops.len() > 0 {
        lemma_find_op_found(ops.drop_first(), id);
        if ops[0].id == id {
            assert(ops[0] == ops[0]);
        } else {
            if contains_op(ops, id) {
                let w = choose|w: int| 0 <= w < ops.len() && ops[w].id == id;
                assert(ops.drop_first()[w - 1].id == id);
                assert(contains_op(ops.drop_first(), id));
            }
            if find_op(ops, id) is Some {
                let r = find_op(ops, id)->Some_0;
                let w = choose|w: int| 0 <= w < ops.drop_first().len() && ops.drop_first()[w] == r;
                assert(ops[w + 1] == r);
            }
        }
    }
}

/// With no dangling references at all, each operation has none.
proof fn lemma_no_dangling_per_op(ops: Seq<OperationView>, schemas: Seq<SchemaView>)
    requires
        all_dangling(ops, schemas) == Seq::<Seq<char>>::empty(),
    ensures
        forall|i: int|
            0 <= i < ops.len() ==> op_dangling((#[trigger] ops[i]).responses, schemas)
                == Seq::<Seq<char>>::empty(),
    decreases ops.len(),
{
    if ops.len() > 0 {
        assert(all_dangling(ops.drop_last(), schemas).len() == 0);
        assert(all_dangling(ops.drop_last(), schemas) =~= Seq::<Seq<char>>::empty());
        lemma_no_dangling_per_op(ops.drop_last(), schemas);
        assert(op_dangling(ops.last().responses, schemas).len() == 0);
        assert(op_dangling(ops.last().responses, schemas) =~= Seq::<Seq<char>>::empty());
        assert forall|i: int|
            0 <= i < ops.len() implies op_dangling((#[trigger] ops[i]).responses, schemas)
            == Seq::<Seq<char>>::empty() by {
            if i < ops.len() - 1 {
                assert(ops.drop_last()[i] == ops[i]);
            } else {
                assert(ops[i] == ops.last());
            }
        }
    }
}

/// With no dangling references in an operation, every declared body schema
/// resolves.
proof fn lemma_no_dangling_per_response(responses: Seq<ResponseView>, schemas: Seq<SchemaView>)
    requires
        op_dangling(responses, schemas) == Seq::<Seq<char>>::empty(),
    ensures
        forall|k: int|
            0 <= k < responses.len() && (#[trigger] responses[k]).schema is Some
                ==> contains_schema(schemas, responses[k].schema->Some_0),
    decreases responses.len(),
{
    if responses.len() > 0 {
        assert(op_dangling(responses.drop_last(), schemas).len() == 0);
        assert(op_dangling(responses.drop_last(), schemas) =~= Seq::<Seq<char>>::empty());
        lemma_no_dangling_per_response(responses.drop_last(), schemas);
        assert(response_dangling(responses.last(), schemas).len() == 0);
        assert forall|k: int|
            0 <= k < responses.len() && (#[trigger] responses[k]).schema is Some
                implies contains_schema(schemas, responses[k].schema->Some_0) by {
            if k < responses.len() - 1 {
                assert(responses.drop_last()[k] == responses[k]);
            } else {
                assert(responses[k] == responses.last());
            }
        }
    }
}

/// Two snapshots whose references all resolve, as `finalize` validates, never
/// produce a snapshot mismatch: every schema the differ must compare
/// resolves.
pub proof fn lemma_finalized_snapshots_resolve(old: SnapshotView, new: SnapshotView)
    requires
        all_dangling(old.ops, old.schemas) == Seq::<Seq<char>>::empty(),
        all_dangling(new.ops, new.schemas) == Seq::<Seq<char>>::empty(),
    ensures
        refs_resolve(old, new),
{
    lemma_no_dangling_per_op(old.ops, old.schemas);
    lemma_no_dangling_per_op(new.ops, new.schemas);
    assert forall|i: int|
        0 <= i < old.ops.len() && contains_op(new.ops, (#[trigger] old.ops[i]).id)
            implies op_refs_resolve(
        old.ops[i],
        find_op(new.ops, old.ops[i].id)->Some_0,
        old.schemas,
        new.schemas,
    ) by {
        let o = old.ops[i];
        lemma_find_op_found(new.ops, o.id);
        let n = find_op(new.ops, o.id)->Some_0;
        let w = choose|w: int| 0 <= w < new.ops.len() && new.ops[w] == n;
        lemma_no_dangling_per_response(o.responses, old.schemas);
        lemma_no_dangling_per_response(n.responses, new.schemas);
        assert forall|k: int|
            0 <= k < o.responses.len() implies response_refs_resolve(
            #[trigger] o.responses[k],
            n.responses,
            old.schemas,
            new.schemas,
        ) by {
            if has_status(n.responses, o.responses[k].status) {
                lemma_find_response_found(n.responses, o.responses[k].status);
                let nr = find_response(n.responses, o.responses[k].status)->Some_0;
                let v = choose|v: int| 0 <= v < n.responses.len() && n.responses[v] == nr;
                assert(n.responses[v].schema is Some ==> contains_schema(
                    new.schemas,
                    n.responses[v].schema->Some_0,
                ));
            }
        }
    }
}

} // verus!
