//! The route-to-schema registry and its exported snapshot documents.
//!
//! A registry keeps its operation descriptors sorted by operation id and its
//! schema models sorted by name, so that every exported document is
//! deterministic. Registration rejects duplicate keys atomically, and
//! `finalize` collects every dangling schema reference in one pass.

use vstd::prelude::*;
use crate::order::{lex_lt, str_compare, StrOrder};
use crate::order::{lemma_lex_trichotomy, lemma_lex_transitive};
use crate::model::{
    OperationDescriptor, OperationView, SchemaModel, SchemaView, RegistryError,
    strings_view,
};

verus! {

// ---------------------------------------------------------------------------
// Snapshot views
// ---------------------------------------------------------------------------

/// Mathematical view of a registry or of an exported document: the ordered
/// operation descriptors and the schema models they may reference.
pub struct SnapshotView {
    pub ops: Seq<OperationView>,
    pub schemas: Seq<SchemaView>,
}

/// The view of a sequence of operation descriptors.
pub open spec fn ops_view(v: Seq<OperationDescriptor>) -> Seq<OperationView> {
    v.map_values(|o: OperationDescriptor| o@)
}

/// The view of a sequence of schema models.
pub open spec fn schemas_view(v: Seq<SchemaModel>) -> Seq<SchemaView> {
    v.map_values(|s: SchemaModel| s@)
}

/// Operations are strictly sorted by operation id.
pub open spec fn ops_sorted(ops: Seq<OperationView>) -> bool {
    forall|i: int, j: int| 0 <= i < j < ops.len() ==> lex_lt(ops[i].id, ops[j].id)
}

/// Schema models are strictly sorted by name.
pub open spec fn schemas_sorted(schemas: Seq<SchemaView>) -> bool {
    forall|i: int, j: int| 0 <= i < j < schemas.len() ==> lex_lt(schemas[i].name, schemas[j].name)
}

/// Some operation carries the given id.
pub open spec fn contains_op(ops: Seq<OperationView>, id: Seq<char>) -> bool {
    exists|i: int| 0 <= i < ops.len() && ops[i].id == id
}

/// Some schema model carries the given name.
pub open spec fn contains_schema(schemas: Seq<SchemaView>, name: Seq<char>) -> bool {
    exists|i: int| 0 <= i < schemas.len() && schemas[i].name == name
}

/// The first operation with the given id, if any.
pub open spec fn find_op(ops: Seq<OperationView>, id: Seq<char>) -> Option<OperationView>
    decreases ops.len(),
{
    if ops.len() == 0 {
        None
    } else if ops[0].id == id {
        Some(ops[0])
    } else {
        find_op(ops.drop_first(), id)
    }
}

/// The first schema model with the given name, if any.
pub open spec fn find_schema(schemas: Seq<SchemaView>, name: Seq<char>) -> Option<SchemaView>
    decreases schemas.len(),
{
    if schemas.len() == 0 {
        None
    } else if schemas[0].name == name {
        Some(schemas[0])
    } else {
        find_schema(schemas.drop_first(), name)
    }
}

impl SnapshotView {
    /// Both collections are strictly sorted by their keys and every entry is
    /// itself well-formed.
    pub open spec fn wf(self) -> bool {
        &&& ops_sorted(self.ops)
        &&& schemas_sorted(self.schemas)
        &&& forall|i: int| 0 <= i < self.ops.len() ==> (#[trigger] self.ops[i]).wf()
        &&& forall|i: int| 0 <= i < self.schemas.len() ==> (#[trigger] self.schemas[i]).wf()
    }
}

// ---------------------------------------------------------------------------
// Sorted insertion
// ---------------------------------------------------------------------------

/// Insertion of an operation descriptor into an id-sorted sequence, before
/// the first entry with a larger id.
pub open spec fn insert_op_sorted(ops: Seq<OperationView>, op: OperationView) -> Seq<OperationView>
    decreases ops.len(),
{
    if ops.len() == 0 {
        seq![op]
    } else if lex_lt(op.id, ops[0].id) {
        seq![op] + ops
    } else {
        seq![ops[0]] + insert_op_sorted(ops.drop_first(), op)
    }
}

/// Insertion of a schema model into a name-sorted sequence.
pub open spec fn insert_schema_sorted(schemas: Seq<SchemaView>, s: SchemaView) -> Seq<SchemaView>
    decreases schemas.len(),
{
    if schemas.len() == 0 {
        seq![s]
    } else if lex_lt(s.name, schemas[0].name) {
        seq![s] + schemas
    } else {
        seq![schemas[0]] + insert_schema_sorted(schemas.drop_first(), s)
    }
}

/// Inserting at the position the keys dictate realizes `insert_op_sorted`,
/// keeps the sequence sorted, and shows the id was fresh.
pub proof fn lemma_insert_op(ops: Seq<OperationView>, op: OperationView, k: int)
    requires
        ops_sorted(ops),
        0 <= k <= ops.len(),
        forall|i: int| 0 <= i < k ==> lex_lt((#[trigger] ops[i]).id, op.id),
        k < ops.len() ==> lex_lt(op.id, ops[k].id),
    ensures
        insert_op_sorted(ops, op) == ops.insert(k, op),
        ops_sorted(ops.insert(k, op)),
        !contains_op(ops, op.id),
    decreases ops.len(),
{
    ops.insert_ensures(k, op);
    if k == 0 {
        if ops.len() == 0 {
            assert(insert_op_sorted(ops, op) =~= ops.insert(0, op));
        } else {
            assert(insert_op_sorted(ops, op) =~= ops.insert(0, op));
        }
    } else {
        lemma_lex_trichotomy(op.id, ops[0].id);
        assert(!lex_lt(op.id, ops[0].id));
        let rest = ops.drop_first();
        assert forall|i: int| 0 <= i < k - 1 implies lex_lt((#[trigger] rest[i]).id, op.id) by {
            assert(rest[i] == ops[i + 1]);
        }
        lemma_insert_op(rest, op, k - 1);
        rest.insert_ensures(k - 1, op);
        assert(seq![ops[0]] + rest.insert(k - 1, op) =~= ops.insert(k, op));
    }
    let t = ops.insert(k, op);
    assert forall|i: int, j: int| 0 <= i < j < t.len() implies lex_lt(t[i].id, t[j].id) by {
        if i == k && j > k {
            if j - 1 > k {
                lemma_lex_transitive(op.id, ops[k].id, ops[j - 1].id);
            }
        } else if i < k && j == k {
        } else if i < k && j > k {
            if k < ops.len() {
                if i < k {
                    lemma_lex_transitive(ops[i].id, op.id, ops[j - 1].id);
                }
            }
        }
    }
    assert forall|i: int| 0 <= i < ops.len() implies ops[i].id != op.id by {
        if i < k {
            lemma_lex_trichotomy(ops[i].id, op.id);
        } else {
            if i > k {
                lemma_lex_transitive(op.id, ops[k as int].id, ops[i].id);
            }
            lemma_lex_trichotomy(op.id, ops[i].id);
        }
    }
}

/// The schema-model counterpart of `lemma_insert_op`.
pub proof fn lemma_insert_schema(schemas: Seq<SchemaView>, s: SchemaView, k: int)
    requires
        schemas_sorted(schemas),
        0 <= k <= schemas.len(),
        forall|i: int| 0 <= i < k ==> lex_lt((#[trigger] schemas[i]).name, s.name),
        k < schemas.len() ==> lex_lt(s.name, schemas[k].name),
    ensures
        insert_schema_sorted(schemas, s) == schemas.insert(k, s),
        schemas_sorted(schemas.insert(k, s)),
        !contains_schema(schemas, s.name),
    decreases schemas.len(),
{
    schemas.insert_ensures(k, s);
    if k == 0 {
        if schemas.len() == 0 {
            assert(insert_schema_sorted(schemas, s) =~= schemas.insert(0, s));
        } else {
            assert(insert_schema_sorted(schemas, s) =~= schemas.insert(0, s));
        }
    } else {
        lemma_lex_trichotomy(s.name, schemas[0].name);
        let rest = schemas.drop_first();
        assert forall|i: int| 0 <= i < k - 1 implies lex_lt((#[trigger] rest[i]).name, s.name) by {
            assert(rest[i] == schemas[i + 1]);
        }
        lemma_insert_schema(rest, s, k - 1);
        rest.insert_ensures(k - 1, s);
        assert(seq![schemas[0]] + rest.insert(k - 1, s) =~= schemas.insert(k, s));
    }
    let t = schemas.insert(k, s);
    assert forall|i: int, j: int| 0 <= i < j < t.len() implies lex_lt(t[i].name, t[j].name) by {
        if i == k && j > k {
            if j - 1 > k {
                lemma_lex_transitive(s.name, schemas[k].name, schemas[j - 1].name);
            }
        } else if i < k && j > k {
            lemma_lex_transitive(schemas[i].name, s.name, schemas[j - 1].name);
        }
    }
    assert forall|i: int| 0 <= i < schemas.len() implies schemas[i].name != s.name by {
        if i < k {
            lemma_lex_trichotomy(schemas[i].name, s.name);
        } else {
            if i > k {
                lemma_lex_transitive(s.name, schemas[k as int].name, schemas[i].name);
            }
            lemma_lex_trichotomy(s.name, schemas[i].name);
        }
    }
}

// ---------------------------------------------------------------------------
// Locating a key
// ---------------------------------------------------------------------------

/// Finds the insertion position of an operation id in an id-sorted vector,
/// or the position of the operation already carrying it.
pub(crate) fn locate_op(ops: &Vec<OperationDescriptor>, id: &str) -> (r: (usize, bool))
    requires
        ops_sorted(ops_view(ops@)),
    ensures
        r.0 <= ops@.len(),
        r.1 <==> contains_op(ops_view(ops@), id@),
        r.1 ==> r.0 < ops@.len() && ops_view(ops@)[r.0 as int].id == id@,
        !r.1 ==> forall|i: int| 0 <= i < r.0 ==> lex_lt((#[trigger] ops_view(ops@)[i]).id, id@),
        !r.1 && r.0 < ops@.len() ==> lex_lt(id@, ops_view(ops@)[r.0 as int].id),
{
    let n = ops.len();
    let mut k: usize = 0;
    while k < n
        invariant
            0 <= k <= n,
            n == ops@.len(),
            ops_sorted(ops_view(ops@)),
            forall|i: int| 0 <= i < k ==> lex_lt((#[trigger] ops_view(ops@)[i]).id, id@),
        decreases n - k,
    {
        let cmp = str_compare(ops[k].id.as_str(), id);
        match cmp {
            StrOrder::Less => {
                assert(ops_view(ops@)[k as int].id == ops@[k as int]@.id);
                k = k + 1;
            },
            StrOrder::Equal => {
                assert(ops_view(ops@)[k as int].id == id@);
                return (k, true);
            },
            StrOrder::Greater => {
                assert(lex_lt(id@, ops_view(ops@)[k as int].id));
                proof {
                    assert forall|i: int| 0 <= i < ops_view(ops@).len()
                        implies ops_view(ops@)[i].id != id@ by {
                        if i < k {
                            lemma_lex_trichotomy(ops_view(ops@)[i].id, id@);
                        } else if i > k {
                            lemma_lex_transitive(
                                id@,
                                ops_view(ops@)[k as int].id,
                                ops_view(ops@)[i].id,
                            );
                            lemma_lex_trichotomy(id@, ops_view(ops@)[i].id);
                        } else {
                            lemma_lex_trichotomy(id@, ops_view(ops@)[i].id);
                        }
                    }
                }
                return (k, false);
            },
        }
    }
    proof {
        assert forall|i: int| 0 <= i < ops_view(ops@).len()
            implies ops_view(ops@)[i].id != id@ by {
            lemma_lex_trichotomy(ops_view(ops@)[i].id, id@);
        }
    }
    (n, false)
}

/// The schema-model counterpart of `locate_op`.
pub(crate) fn locate_schema(schemas: &Vec<SchemaModel>, name: &str) -> (r: (usize, bool))
    requires
        schemas_sorted(schemas_view(schemas@)),
    ensures
        r.0 <= schemas@.len(),
        r.1 <==> contains_schema(schemas_view(schemas@), name@),
        r.1 ==> r.0 < schemas@.len() && schemas_view(schemas@)[r.0 as int].name == name@,
        !r.1 ==> forall|i: int|
            0 <= i < r.0 ==> lex_lt((#[trigger] schemas_view(schemas@)[i]).name, name@),
        !r.1 && r.0 < schemas@.len() ==> lex_lt(name@, schemas_view(schemas@)[r.0 as int].name),
{
    let n = schemas.len();
    let mut k: usize = 0;
    while k < n
        invariant
            0 <= k <= n,
            n == schemas@.len(),
            schemas_sorted(schemas_view(schemas@)),
            forall|i: int| 0 <= i < k ==> lex_lt((#[trigger] schemas_view(schemas@)[i]).name, name@),
        decreases n - k,
    {
        let cmp = str_compare(schemas[k].name.as_str(), name);
        match cmp {
            StrOrder::Less => {
                assert(schemas_view(schemas@)[k as int].name == schemas@[k as int]@.name);
                k = k + 1;
            },
            StrOrder::Equal => {
                assert(schemas_view(schemas@)[k as int].name == name@);
                return (k, true);
            },
            StrOrder::Greater => {
                assert(lex_lt(name@, schemas_view(schemas@)[k as int].name));
                proof {
                    assert forall|i: int| 0 <= i < schemas_view(schemas@).len()
                        implies schemas_view(schemas@)[i].name != name@ by {
                        if i < k {
                            lemma_lex_trichotomy(schemas_view(schemas@)[i].name, name@);
                        } else if i > k {
                            lemma_lex_transitive(
                                name@,
                                schemas_view(schemas@)[k as int].name,
                                schemas_view(schemas@)[i].name,
                            );
                            lemma_lex_trichotomy(name@, schemas_view(schemas@)[i].name);
                        } else {
                            lemma_lex_trichotomy(name@, schemas_view(schemas@)[i].name);
                        }
                    }
                }
                return (k, false);
            },
        }
    }
    proof {
        assert forall|i: int| 0 <= i < schemas_view(schemas@).len()
            implies schemas_view(schemas@)[i].name != name@ by {
            lemma_lex_trichotomy(schemas_view(schemas@)[i].name, name@);
        }
    }
    (n, false)
}

// ---------------------------------------------------------------------------
// The registry
// ---------------------------------------------------------------------------

/// An ordered collection of operation descriptors plus the schema models they
/// reference. Built once during a synchronous build phase: write-once,
/// read-many.
pub struct Registry {
    pub ops: Vec<OperationDescriptor>,
    pub schemas: Vec<SchemaModel>,
}

impl View for Registry {
    type V = SnapshotView;

    open spec fn view(&self) -> SnapshotView {
        SnapshotView { ops: ops_view(self.ops@), schemas: schemas_view(self.schemas@) }
    }
}

/// An immutable exported snapshot of a registry: the differ's input. A
/// document is a value; exporting never aliases the registry's storage.
pub struct Document {
    pub ops: Vec<OperationDescriptor>,
    pub schemas: Vec<SchemaModel>,
}

impl View for Document {
    type V = SnapshotView;

    open spec fn view(&self) -> SnapshotView {
        SnapshotView { ops: ops_view(self.ops@), schemas: schemas_view(self.schemas@) }
    }
}

impl Registry {
    /// An empty registry.
    pub fn new() -> (r: Registry)
        ensures
            r@.ops == Seq::<OperationView>::empty(),
            r@.schemas == Seq::<SchemaView>::empty(),
            r@.wf(),
    {
        let r = Registry { ops: Vec::new(), schemas: Vec::new() };
        proof {
            assert(r@.ops =~= Seq::<OperationView>::empty());
            assert(r@.schemas =~= Seq::<SchemaView>::empty());
        }
        r
    }

    /// Registers an operation descriptor at its sorted position. Fails, and
    /// leaves the registry unchanged, when the operation id is already taken.
    pub fn register(&mut self, op: OperationDescriptor) -> (r: Result<(), RegistryError>)
        requires
            old(self)@.wf(),
            op@.wf(),
        ensures
            final(self)@.wf(),
            r is Ok <==> !contains_op(old(self)@.ops, op@.id),
            r is Ok ==> final(self)@.ops == insert_op_sorted(old(self)@.ops, op@)
                && final(self)@.schemas == old(self)@.schemas,
            r is Err ==> final(self)@ == old(self)@ && r->Err_0 is DuplicateOperationId,
    {
        let (k, found) = locate_op(&self.ops, op.id.as_str());
        if found {
            Err(RegistryError::DuplicateOperationId)
        } else {
            proof {
                lemma_insert_op(ops_view(self.ops@), op@, k as int);
            }
            self.ops.insert(k, op);
            proof {
                assert(ops_view(self.ops@) =~= ops_view(old(self).ops@).insert(k as int, op@));
            }
            Ok(())
        }
    }

    /// Registers a schema model at its sorted position. Fails, and leaves the
    /// registry unchanged, when the schema name is already taken.
    pub fn register_schema(&mut self, schema: SchemaModel) -> (r: Result<(), RegistryError>)
        requires
            old(self)@.wf(),
            schema@.wf(),
        ensures
            final(self)@.wf(),
            r is Ok <==> !contains_schema(old(self)@.schemas, schema@.name),
            r is Ok ==> final(self)@.schemas == insert_schema_sorted(old(self)@.schemas, schema@)
                && final(self)@.ops == old(self)@.ops,
            r is Err ==> final(self)@ == old(self)@ && r->Err_0 is DuplicateSchemaName,
    {
        let (k, found) = locate_schema(&self.schemas, schema.name.as_str());
        if found {
            Err(RegistryError::DuplicateSchemaName)
        } else {
            proof {
                lemma_insert_schema(schemas_view(self.schemas@), schema@, k as int);
            }
            self.schemas.insert(k, schema);
            proof {
                assert(schemas_view(self.schemas@)
                    =~= schemas_view(old(self).schemas@).insert(k as int, schema@));
            }
            Ok(())
        }
    }

    /// Looks an operation up by its id.
    pub fn lookup(&self, id: &str) -> (r: Option<&OperationDescriptor>)
        ensures
            r is Some <==> contains_op(self@.ops, id@),
            r is Some ==> find_op(self@.ops, id@) == Some(r->Some_0@),
    {
        let n = self.ops.len();
        let mut i: usize = 0;
        while i < n
            invariant
                0 <= i <= n,
                n == self.ops@.len(),
                forall|p: int| 0 <= p < i ==> (#[trigger] ops_view(self.ops@)[p]).id != id@,
            decreases n - i,
        {
            if compare_is_equal(self.ops[i].id.as_str(), id) {
                proof {
                    assert(ops_view(self.ops@)[i as int].id == id@);
                    lemma_find_op_skip(ops_view(self.ops@), id@, i as int);
                }
                return Some(&self.ops[i]);
            }
            assert(ops_view(self.ops@)[i as int].id != id@);
            i = i + 1;
        }
        proof {
            if contains_op(self@.ops, id@) {
                let w = choose|p: int| 0 <= p < self@.ops.len() && self@.ops[p].id == id@;
                assert(ops_view(self.ops@)[w].id != id@);
            }
        }
        None
    }

    /// Validates that every schema reference of every operation resolves,
    /// collecting all dangling references rather than stopping at the first.
    pub fn finalize(&self) -> (r: Result<(), RegistryError>)
        requires
            self@.wf(),
        ensures
            r is Ok <==> all_dangling(self@.ops, self@.schemas) == Seq::<Seq<char>>::empty(),
            r is Err ==> r->Err_0 is UnresolvedReferences
                && strings_view(r->Err_0->UnresolvedReferences_0@)
                    == all_dangling(self@.ops, self@.schemas),
    {
        let mut missing: Vec<String> = Vec::new();
        let n = self.ops.len();
        let mut i: usize = 0;
        proof {
            assert(self@.schemas == schemas_view(self.schemas@));
            assert(self@.ops == ops_view(self.ops@));
            assert(schemas_sorted(schemas_view(self.schemas@)));
            assert(strings_view(missing@) =~= all_dangling(self@.ops.take(0), self@.schemas));
        }
        while i < n
            invariant
                0 <= i <= n,
                n == self.ops@.len(),
                schemas_sorted(schemas_view(self.schemas@)),
                strings_view(missing@) == all_dangling(
                    ops_view(self.ops@).take(i as int),
                    schemas_view(self.schemas@),
                ),
            decreases n - i,
        {
            let m = self.ops[i].responses.len();
            let mut j: usize = 0;
            proof {
                assert(ops_view(self.ops@)[i as int] == self.ops@[i as int]@);
                assert(op_dangling(
                    ops_view(self.ops@)[i as int].responses.take(0),
                    schemas_view(self.schemas@),
                ) =~= Seq::<Seq<char>>::empty());
            }
            while j < m
                invariant
                    0 <= j <= m,
                    0 <= i < n,
                    n == self.ops@.len(),
                    m == self.ops@[i as int].responses@.len(),
                    ops_view(self.ops@)[i as int] == self.ops@[i as int]@,
                    schemas_sorted(schemas_view(self.schemas@)),
                    strings_view(missing@) == all_dangling(
                        ops_view(self.ops@).take(i as int),
                        schemas_view(self.schemas@),
                    ) + op_dangling(
                        ops_view(self.ops@)[i as int].responses.take(j as int),
                        schemas_view(self.schemas@),
                    ),
                decreases m - j,
            {
                let ghost resp_views = ops_view(self.ops@)[i as int].responses;
                proof {
                    assert(resp_views.take(j as int + 1).drop_last() =~= resp_views.take(j as int));
                    assert(resp_views.take(j as int + 1).last() == resp_views[j as int]);
                    assert(resp_views[j as int] == self.ops@[i as int].responses@[j as int]@);
                }
                match &self.ops[i].responses[j].schema {
                    Some(name) => {
                        let (_, exists_already) = locate_schema(&self.schemas, name.as_str());
                        if !exists_already {
                            let ghost seen = missing@;
                            missing.push(name.clone());
                            proof {
                                assert(strings_view(missing@) =~= strings_view(seen).push(name@));
                            }
                        }
                    },
                    None => {},
                }
                proof {
                    assert(op_dangling(resp_views.take(j as int + 1), schemas_view(self.schemas@))
                        == op_dangling(resp_views.take(j as int), schemas_view(self.schemas@))
                            + response_dangling(resp_views[j as int], schemas_view(self.schemas@)));
                    assert(strings_view(missing@) =~= all_dangling(
                        ops_view(self.ops@).take(i as int),
                        schemas_view(self.schemas@),
                    ) + op_dangling(resp_views.take(j as int + 1), schemas_view(self.schemas@)));
                }
                j = j + 1;
            }
            proof {
                let ops_v = ops_view(self.ops@);
                assert(ops_v[i as int].responses.take(m as int) =~= ops_v[i as int].responses);
                assert(ops_v.take(i as int + 1).drop_last() =~= ops_v.take(i as int));
                assert(ops_v.take(i as int + 1).last() == ops_v[i as int]);
            }
            i = i + 1;
        }
        proof {
            assert(ops_view(self.ops@).take(n as int) =~= ops_view(self.ops@));
        }
        if missing.len() == 0 {
            proof {
                assert(strings_view(missing@) =~= Seq::<Seq<char>>::empty());
            }
            Ok(())
        } else {
            proof {
                assert(strings_view(missing@).len() > 0);
            }
            Err(RegistryError::UnresolvedReferences(missing))
        }
    }

    /// Exports an immutable snapshot document. Side-effect free and
    /// deterministic: the document is exactly the registry's current view.
    pub fn export(&self) -> (d: Document)
        ensures
            d@ == self@,
    {
        let d = Document { ops: clone_ops(&self.ops), schemas: clone_schemas(&self.schemas) };
        proof {
            assert(d@ =~~= self@);
        }
        d
    }
}

/// Whether two strings are equal, via the three-way comparison.
fn compare_is_equal(a: &str, b: &str) -> (r: bool)
    ensures
        r <==> a@ == b@,
{
    match str_compare(a, b) {
        StrOrder::Equal => true,
        _ => false,
    }
}

fn clone_ops(ops: &Vec<OperationDescriptor>) -> (r: Vec<OperationDescriptor>)
    ensures
        ops_view(r@) == ops_view(ops@),
{
    let mut r: Vec<OperationDescriptor> = Vec::new();
    let mut i: usize = 0;
    while i < ops.len()
        invariant
            0 <= i <= ops.len(),
            r@.len() == i,
            forall|k: int| 0 <= k < i ==> r@[k]@ == ops@[k]@,
        decreases ops.len() - i,
    {
        r.push(ops[i].clone());
        i = i + 1;
    }
    proof {
        assert(ops_view(r@) =~= ops_view(ops@));
    }
    r
}

fn clone_schemas(schemas: &Vec<SchemaModel>) -> (r: Vec<SchemaModel>)
    ensures
        schemas_view(r@) == schemas_view(schemas@),
{
    let mut r: Vec<SchemaModel> = Vec::new();
    let mut i: usize = 0;
    while i < schemas.len()
        invariant
            0 <= i <= schemas.len(),
            r@.len() == i,
            forall|k: int| 0 <= k < i ==> r@[k]@ == schemas@[k]@,
        decreases schemas.len() - i,
    {
        r.push(schemas[i].clone());
        i = i + 1;
    }
    proof {
        assert(schemas_view(r@) =~= schemas_view(schemas@));
    }
    r
}

// ---------------------------------------------------------------------------
// Dangling references
// ---------------------------------------------------------------------------

/// The dangling references of one response: its schema name when no schema
/// model carries it.
pub open spec fn response_dangling(
    r: crate::model::ResponseView,
    schemas: Seq<SchemaView>,
) -> Seq<Seq<char>> {
    match r.schema {
        Some(name) => if contains_schema(schemas, name) {
            Seq::empty()
        } else {
            seq![name]
        },
        None => Seq::empty(),
    }
}

/// The dangling references of one operation's responses, in declaration
/// order.
pub open spec fn op_dangling(
    responses: Seq<crate::model::ResponseView>,
    schemas: Seq<SchemaView>,
) -> Seq<Seq<char>>
    decreases responses.len(),
{
    if responses.len() == 0 {
        Seq::empty()
    } else {
        op_dangling(responses.drop_last(), schemas) + response_dangling(responses.last(), schemas)
    }
}

/// All dangling references of a snapshot, operation by operation.
pub open spec fn all_dangling(ops: Seq<OperationView>, schemas: Seq<SchemaView>) -> Seq<Seq<char>>
    decreases ops.len(),
{
    if ops.len() == 0 {
        Seq::empty()
    } else {
        all_dangling(ops.drop_last(), schemas) + op_dangling(ops.last().responses, schemas)
    }
}

// ---------------------------------------------------------------------------
// Finding the first match
// ---------------------------------------------------------------------------

/// When no operation before position `i` carries the id, the first match in
/// the whole sequence is the first match from `i` on.
pub proof fn lemma_find_op_skip(ops: Seq<OperationView>, id: Seq<char>, i: int)
    requires
        0 <= i <= ops.len(),
        forall|p: int| 0 <= p < i ==> (#[trigger] ops[p]).id != id,
    ensures
        find_op(ops, id) == find_op(ops.skip(i), id),
    decreases i,
{
    if i > 0 {
        assert(ops.drop_first() =~= ops.skip(1));
        assert(ops.skip(1).skip(i - 1) =~= ops.skip(i));
        lemma_find_op_skip(ops.skip(1), id, i - 1);
    } else {
        assert(ops.skip(0) =~= ops);
    }
}

/// In a sorted sequence, the operation carrying an id is the first match.
pub proof fn lemma_find_op_at(ops: Seq<OperationView>, id: Seq<char>, k: int)
    requires
        ops_sorted(ops),
        0 <= k < ops.len(),
        ops[k].id == id,
    ensures
        find_op(ops, id) == Some(ops[k]),
{
    assert forall|p: int| 0 <= p < k implies (#[trigger] ops[p]).id != id by {
        lemma_lex_trichotomy(ops[p].id, ops[k].id);
    }
    lemma_find_op_skip(ops, id, k);
    assert(ops.skip(k)[0] == ops[k]);
}

/// The schema counterpart of `lemma_find_op_skip`.
pub proof fn lemma_find_schema_skip(schemas: Seq<SchemaView>, name: Seq<char>, i: int)
    requires
        0 <= i <= schemas.len(),
        forall|p: int| 0 <= p < i ==> (#[trigger] schemas[p]).name != name,
    ensures
        find_schema(schemas, name) == find_schema(schemas.skip(i), name),
    decreases i,
{
    if i > 0 {
        assert(schemas.drop_first() =~= schemas.skip(1));
        assert(schemas.skip(1).skip(i - 1) =~= schemas.skip(i));
        lemma_find_schema_skip(schemas.skip(1), name, i - 1);
    } else {
        assert(schemas.skip(0) =~= schemas);
    }
}

/// In a name-sorted sequence, the schema carrying a name is the first match.
pub proof fn lemma_find_schema_at(schemas: Seq<SchemaView>, name: Seq<char>, k: int)
    requires
        schemas_sorted(schemas),
        0 <= k < schemas.len(),
        schemas[k].name == name,
    ensures
        find_schema(schemas, name) == Some(schemas[k]),
{
    assert forall|p: int| 0 <= p < k implies (#[trigger] schemas[p]).name != name by {
        lemma_lex_trichotomy(schemas[p].name, schemas[k].name);
    }
    lemma_find_schema_skip(schemas, name, k);
    assert(schemas.skip(k)[0] == schemas[k]);
}

} // verus!
