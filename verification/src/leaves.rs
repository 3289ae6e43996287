//! Documents seen from their leaves: the rows of a document whose values
//! and arrays stand behind key paths that part at the first key.
use vstd::prelude::*;
use crate::extract::{ValueModel, ends_here, extracted, extracted_all};
use crate::discover::{array_paths, discovered, found, object_paths, prepended, united, united_upto};
use crate::json::{Field, Json};
use crate::path::{Path, PathElem, path_text};
use crate::render::document_rows;
use crate::schema::{SchemaModel, appended, chain, compiled, has_root, same_root};
use crate::tuples::{array_prefix, cell, groups_of, lemma_root_of_one, rows_of};
use crate::utils::{
    Row, all_empty, join_all, lemma_one_large_group, lemma_small_groups_give_one_row,
    lemma_two_large_groups, overlay,
};

verus! {

/// The path that steps through the given keys.
pub open spec fn key_path(keys: Seq<Seq<char>>) -> Path {
    Seq::new(keys.len(), |i: int| PathElem::Key(keys[i]))
}

/// The value that a value holds behind a list of keys, each the name of a
/// field of the object before it.
pub open spec fn value_at(value: Json, keys: Seq<Seq<char>>) -> Option<Json>
    decreases keys.len(),
{
    if keys.len() == 0 {
        Some(value)
    } else {
        match value.field(keys[0]) {
            Some(inner) => value_at(inner, keys.skip(1)),
            None => None,
        }
    }
}

/// One fragment for each element of an array: the element under the
/// column of the array that stands at `place`.
pub open spec fn array_cells(flat: bool, place: Path, items: Seq<Json>) -> Seq<Row> {
    Seq::new(items.len(), |i: int| cell(path_text(array_prefix(flat, place)), items[i]))
}

/// An array of `n` values behind a list of keys, at any depth, gives under
/// the schema tree of its path one tree of `n` fragments: the `i`-th holds
/// the `i`-th element under the column of the array, and nothing else.
pub proof fn lemma_array_at_path_rows(
    flat: bool,
    prefix: Path,
    doc: Json,
    keys: Seq<Seq<char>>,
    items: Seq<Json>,
)
    requires
        keys.len() > 0,
        value_at(doc, keys) == Some(Json::Array(items)),
    ensures
        extracted(doc, chain(key_path(keys).push(PathElem::Iterator))) is Some,
        rows_of(
            flat,
            prefix,
            extracted(doc, chain(key_path(keys).push(PathElem::Iterator)))->0,
        ) == array_cells(flat, prefix + key_path(keys), items),
    decreases keys.len(),
{
    let p = key_path(keys).push(PathElem::Iterator);
    let first = PathElem::Key(keys[0]);
    let rest = key_path(keys.skip(1)).push(PathElem::Iterator);
    assert(p[0] == first);
    assert(p.skip(1) =~= rest);
    let below = chain(rest);
    assert(rest[0] == (if keys.len() == 1 {
        PathElem::Iterator
    } else {
        PathElem::Key(keys[1])
    }));
    assert(below is Node);
    let children = seq![below];
    assert(chain(p) == SchemaModel::Node(first, children));
    let inner = doc.field(keys[0])->0;
    let inside = prefix.push(first);
    assert(extracted_all(inner, children, 0) =~= Seq::<ValueModel>::empty());
    if keys.len() == 1 {
        assert(keys.skip(1) =~= Seq::<Seq<char>>::empty());
        assert(inner == Json::Array(items));
        assert(rest =~= seq![PathElem::Iterator]);
        assert(rest.skip(1) =~= Seq::<PathElem>::empty());
        assert(chain(rest.skip(1)) == SchemaModel::End);
        assert(below == SchemaModel::Node(PathElem::Iterator, seq![SchemaModel::End]));
        assert(extracted(inner, below) == Some(ValueModel::Array(items)));
        assert(extracted_all(inner, children, 1) =~= seq![ValueModel::Array(items)]);
        lemma_root_of_one(flat, prefix, first, ValueModel::Array(items));
        assert(prefix + key_path(keys) =~= inside);
        assert(rows_of(flat, inside, ValueModel::Array(items)) =~= array_cells(flat, inside, items));
    } else {
        lemma_array_at_path_rows(flat, inside, inner, keys.skip(1), items);
        let found = extracted(inner, below)->0;
        assert(extracted_all(inner, children, 1) =~= seq![found]);
        lemma_root_of_one(flat, prefix, first, found);
        assert(prefix + key_path(keys) =~= inside + key_path(keys.skip(1)));
    }
}

/// A document with one array of `n` values behind a list of keys has,
/// under the schema of the array's path, `n` rows: row `i` holds the
/// `i`-th element under the column of the array.
pub proof fn lemma_one_array_at_path(flat: bool, doc: Json, keys: Seq<Seq<char>>, items: Seq<Json>)
    requires
        keys.len() > 0,
        value_at(doc, keys) == Some(Json::Array(items)),
    ensures
        document_rows(flat, compiled(seq![key_path(keys).push(PathElem::Iterator)]), doc)
            == array_cells(flat, key_path(keys), items),
{
    let p = key_path(keys).push(PathElem::Iterator);
    let none = Seq::<SchemaModel>::empty();
    let empty = Seq::<PathElem>::empty();
    assert(seq![p].drop_last() =~= Seq::<Path>::empty());
    assert(compiled(seq![p].drop_last()) =~= none);
    assert(!has_root(none, p));
    assert(appended(none, p) =~= seq![chain(p)]);
    let schema = compiled(seq![p]);
    assert(schema =~= seq![chain(p)]);
    lemma_array_at_path_rows(flat, empty, doc, keys, items);
    let tree = extracted(doc, chain(p))->0;
    assert(extracted_all(doc, schema, 0) =~= Seq::<ValueModel>::empty());
    assert(extracted_all(doc, schema, 1) =~= seq![tree]);
    let groups = groups_of(flat, empty, seq![tree]);
    assert(groups.drop_last() =~= Seq::<Seq<Row>>::empty());
    assert(join_all(groups.drop_last()) =~= Seq::<Row>::empty());
    assert(groups.last() == rows_of(flat, empty, tree));
    assert(empty + key_path(keys) =~= key_path(keys));
}

/// A leaf of a document: the keys that lead to it, and whether it is an
/// array to be unfolded or a value to be taken as it is.
pub struct Leaf {
    pub keys: Seq<Seq<char>>,
    pub array: bool,
}

/// The header path of a leaf.
pub open spec fn leaf_path(leaf: Leaf) -> Path {
    if leaf.array {
        key_path(leaf.keys).push(PathElem::Iterator)
    } else {
        key_path(leaf.keys)
    }
}

/// Whether a document has a leaf: the keys lead to a value, which is an
/// array where the leaf is one.
pub open spec fn leaf_in(doc: Json, leaf: Leaf) -> bool {
    &&& leaf.keys.len() > 0
    &&& value_at(doc, leaf.keys) is Some
    &&& leaf.array ==> value_at(doc, leaf.keys)->0 is Array
}

/// The fragments of a leaf: for a value, one fragment that holds it under
/// the column of its path; for an array, one fragment for each element.
pub open spec fn leaf_rows(flat: bool, prefix: Path, doc: Json, leaf: Leaf) -> Seq<Row> {
    let value = value_at(doc, leaf.keys)->0;
    if leaf.array {
        array_cells(flat, prefix + key_path(leaf.keys), value->Array_0)
    } else {
        seq![cell(path_text(prefix + key_path(leaf.keys)), value)]
    }
}

/// Whether the leaves are leaves of the document and no two of them start
/// with the same key.
pub open spec fn leaves_of(doc: Json, leaves: Seq<Leaf>) -> bool {
    &&& forall|i: int| 0 <= i < leaves.len() ==> leaf_in(doc, #[trigger] leaves[i])
    &&& forall|i: int, j: int|
        0 <= i < j < leaves.len() ==> (#[trigger] leaves[i]).keys[0] != (#[trigger] leaves[j]).keys[0]
}

/// The header of a list of leaves.
pub open spec fn leaf_header(leaves: Seq<Leaf>) -> Seq<Path> {
    Seq::new(leaves.len(), |i: int| leaf_path(leaves[i]))
}

/// The fragments of each leaf, in the order of the schema: the leaf added
/// last comes first.
pub open spec fn leaf_groups(flat: bool, doc: Json, leaves: Seq<Leaf>) -> Seq<Seq<Row>> {
    Seq::new(
        leaves.len(),
        |j: int| leaf_rows(flat, Seq::empty(), doc, leaves[leaves.len() - 1 - j]),
    )
}

/// A value behind a list of keys, at any depth, gives under the schema
/// tree of its path one fragment: the value under the column of its path.
pub proof fn lemma_value_at_path_rows(
    flat: bool,
    prefix: Path,
    doc: Json,
    keys: Seq<Seq<char>>,
    value: Json,
)
    requires
        keys.len() > 0,
        value_at(doc, keys) == Some(value),
    ensures
        extracted(doc, chain(key_path(keys))) is Some,
        rows_of(flat, prefix, extracted(doc, chain(key_path(keys)))->0) == seq![
            cell(path_text(prefix + key_path(keys)), value),
        ],
    decreases keys.len(),
{
    let p = key_path(keys);
    let first = PathElem::Key(keys[0]);
    let rest = key_path(keys.skip(1));
    assert(p[0] == first);
    assert(p.skip(1) =~= rest);
    let below = chain(rest);
    let children = seq![below];
    assert(chain(p) == SchemaModel::Node(first, children));
    let inner = doc.field(keys[0])->0;
    let inside = prefix.push(first);
    if keys.len() == 1 {
        assert(keys.skip(1) =~= Seq::<Seq<char>>::empty());
        assert(inner == value);
        assert(below == SchemaModel::End);
        assert(ends_here(children));
        assert(prefix + key_path(keys) =~= inside);
    } else {
        assert(rest[0] == PathElem::Key(keys[1]));
        assert(below is Node);
        assert(!ends_here(children));
        lemma_value_at_path_rows(flat, inside, inner, keys.skip(1), value);
        let found = extracted(inner, below)->0;
        assert(extracted_all(inner, children, 0) =~= Seq::<ValueModel>::empty());
        assert(extracted_all(inner, children, 1) =~= seq![found]);
        lemma_root_of_one(flat, prefix, first, found);
        assert(prefix + key_path(keys) =~= inside + key_path(keys.skip(1)));
    }
}

/// A leaf of a document gives, under the schema tree of its path, its
/// fragments.
pub proof fn lemma_leaf_rows(flat: bool, prefix: Path, doc: Json, leaf: Leaf)
    requires
        leaf_in(doc, leaf),
    ensures
        extracted(doc, chain(leaf_path(leaf))) is Some,
        rows_of(flat, prefix, extracted(doc, chain(leaf_path(leaf)))->0) == leaf_rows(
            flat,
            prefix,
            doc,
            leaf,
        ),
        chain(leaf_path(leaf)) is Node,
        chain(leaf_path(leaf))->Node_0 == PathElem::Key(leaf.keys[0]),
{
    let value = value_at(doc, leaf.keys)->0;
    assert(leaf_path(leaf)[0] == PathElem::Key(leaf.keys[0]));
    if leaf.array {
        lemma_array_at_path_rows(flat, prefix, doc, leaf.keys, value->Array_0);
    } else {
        lemma_value_at_path_rows(flat, prefix, doc, leaf.keys, value);
    }
}

/// The schema of the first `n` leaves: the chain of each, the leaf added
/// last first.
pub proof fn lemma_leaf_schema(doc: Json, leaves: Seq<Leaf>, n: int)
    requires
        leaves_of(doc, leaves),
        0 <= n <= leaves.len(),
    ensures
        compiled(leaf_header(leaves).take(n)) == Seq::new(
            n as nat,
            |j: int| chain(leaf_path(leaves[n - 1 - j])),
        ),
    decreases n,
{
    let header = leaf_header(leaves);
    let want = Seq::new(n as nat, |j: int| chain(leaf_path(leaves[n - 1 - j])));
    if n == 0 {
        assert(compiled(header.take(0)) =~= want);
    } else {
        lemma_leaf_schema(doc, leaves, n - 1);
        let before = compiled(header.take(n - 1));
        let p = leaf_path(leaves[n - 1]);
        assert(header.take(n).drop_last() =~= header.take(n - 1));
        assert(header.take(n).last() == p);
        assert(p[0] == PathElem::Key(leaves[n - 1].keys[0]));
        assert forall|j: int| 0 <= j < before.len() implies !same_root(#[trigger] before[j], p) by {
            lemma_leaf_rows(false, Seq::empty(), doc, leaves[n - 2 - j]);
            assert(leaves[n - 2 - j].keys[0] != leaves[n - 1].keys[0]);
        }
        assert(!has_root(before, p));
        assert(appended(before, p) =~= want);
    }
}

/// What the schema of the leaves finds in the document: for each leaf, in
/// the order of the schema, the tree of the leaf.
pub proof fn lemma_leaf_trees(doc: Json, leaves: Seq<Leaf>, k: nat)
    requires
        leaves_of(doc, leaves),
        k <= leaves.len(),
    ensures
        extracted_all(doc, compiled(leaf_header(leaves)), k) == Seq::new(
            k,
            |j: int| extracted(doc, chain(leaf_path(leaves[leaves.len() - 1 - j])))->0,
        ),
    decreases k,
{
    let n = leaves.len() as int;
    let schema = compiled(leaf_header(leaves));
    lemma_leaf_schema(doc, leaves, n);
    assert(leaf_header(leaves).take(n) =~= leaf_header(leaves));
    let want = Seq::new(k, |j: int| extracted(doc, chain(leaf_path(leaves[n - 1 - j])))->0);
    if k == 0 {
        assert(extracted_all(doc, schema, 0) =~= want);
    } else {
        lemma_leaf_trees(doc, leaves, (k - 1) as nat);
        assert(schema[k - 1] == chain(leaf_path(leaves[n - k])));
        lemma_leaf_rows(false, Seq::empty(), doc, leaves[n - k]);
        assert(extracted_all(doc, schema, k) =~= want);
    }
}

/// The rows of a document under the schema of its leaves are the
/// Cartesian join of the fragments of the leaves.
pub proof fn lemma_leaves_rows(flat: bool, doc: Json, leaves: Seq<Leaf>)
    requires
        leaves_of(doc, leaves),
    ensures
        document_rows(flat, compiled(leaf_header(leaves)), doc) == join_all(
            leaf_groups(flat, doc, leaves),
        ),
{
    let n = leaves.len() as int;
    let schema = compiled(leaf_header(leaves));
    lemma_leaf_schema(doc, leaves, n);
    assert(leaf_header(leaves).take(n) =~= leaf_header(leaves));
    assert(schema.len() == leaves.len());
    lemma_leaf_trees(doc, leaves, leaves.len());
    let trees = extracted_all(doc, schema, schema.len());
    let groups = groups_of(flat, Seq::empty(), trees);
    let want = leaf_groups(flat, doc, leaves);
    assert forall|j: int| 0 <= j < n implies groups[j] == want[j] by {
        lemma_leaf_rows(flat, Seq::empty(), doc, leaves[n - 1 - j]);
    }
    assert(groups =~= want);
}

/// A document whose leaves are all values, none an array, has under the
/// schema of its leaves exactly one row: it holds each leaf under the
/// column of its path, and nothing else.
pub proof fn lemma_values_give_one_row(flat: bool, doc: Json, leaves: Seq<Leaf>)
    requires
        leaves_of(doc, leaves),
        leaves.len() > 0,
        forall|i: int| 0 <= i < leaves.len() ==> !(#[trigger] leaves[i]).array,
    ensures
        document_rows(flat, compiled(leaf_header(leaves)), doc) == seq![
            overlay(leaf_groups(flat, doc, leaves)),
        ],
{
    lemma_leaves_rows(flat, doc, leaves);
    let groups = leaf_groups(flat, doc, leaves);
    let n = leaves.len() as int;
    assert forall|j: int| 0 <= j < groups.len() implies (#[trigger] groups[j]).len() == 1 by {
        assert(!leaves[n - 1 - j].array);
    }
    assert(groups[0].len() == 1);
    assert(!all_empty(groups));
    lemma_small_groups_give_one_row(groups);
    assert(join_all(groups) =~= seq![overlay(groups)]);
}

/// A document with one array of `n` elements among leaves that are
/// values has under the schema of its leaves `n` rows. Row `i` is the one
/// row that the document would have with the `i`-th element alone in the
/// array: the array's column holds that element, and every other column
/// holds the same in all rows.
pub proof fn lemma_one_array_among_values(flat: bool, doc: Json, leaves: Seq<Leaf>, a: int, i: int)
    requires
        leaves_of(doc, leaves),
        0 <= a < leaves.len(),
        leaves[a].array,
        forall|j: int| 0 <= j < leaves.len() && j != a ==> !(#[trigger] leaves[j]).array,
        0 <= i < value_at(doc, leaves[a].keys)->0->Array_0.len(),
    ensures
        ({
            let rows = document_rows(flat, compiled(leaf_header(leaves)), doc);
            let items = value_at(doc, leaves[a].keys)->0->Array_0;
            let groups = leaf_groups(flat, doc, leaves);
            let k = leaves.len() - 1 - a;
            let one = cell(path_text(array_prefix(flat, key_path(leaves[a].keys))), items[i]);
            &&& rows.len() == items.len()
            &&& rows[i] == join_all(groups.update(k, seq![one]))[0]
            &&& join_all(groups.update(k, seq![one])).len() == 1
        }),
{
    lemma_leaves_rows(flat, doc, leaves);
    let groups = leaf_groups(flat, doc, leaves);
    let n = leaves.len() as int;
    let k = n - 1 - a;
    let empty = Seq::<PathElem>::empty();
    assert(empty + key_path(leaves[a].keys) =~= key_path(leaves[a].keys));
    assert(groups[k] == leaf_rows(flat, empty, doc, leaves[a]));
    assert forall|j: int| 0 <= j < groups.len() && j != k implies (#[trigger] groups[j]).len()
        <= 1 by {
        assert(!leaves[n - 1 - j].array);
    }
    lemma_one_large_group(groups, k, i);
}

/// A document with two arrays of `m` and `n` elements among leaves that
/// are values has under the schema of its leaves `m * n` rows.
pub proof fn lemma_two_arrays_among_values(flat: bool, doc: Json, leaves: Seq<Leaf>, a: int, b: int)
    requires
        leaves_of(doc, leaves),
        0 <= a < b < leaves.len(),
        leaves[a].array,
        leaves[b].array,
        forall|j: int| 0 <= j < leaves.len() && j != a && j != b ==> !(#[trigger] leaves[j]).array,
        value_at(doc, leaves[a].keys)->0->Array_0.len() > 0,
        value_at(doc, leaves[b].keys)->0->Array_0.len() > 0,
    ensures
        document_rows(flat, compiled(leaf_header(leaves)), doc).len() == value_at(
            doc,
            leaves[a].keys,
        )->0->Array_0.len() * value_at(doc, leaves[b].keys)->0->Array_0.len(),
{
    lemma_leaves_rows(flat, doc, leaves);
    let groups = leaf_groups(flat, doc, leaves);
    let n = leaves.len() as int;
    let ka = n - 1 - a;
    let kb = n - 1 - b;
    assert(groups[ka] == leaf_rows(flat, Seq::empty(), doc, leaves[a]));
    assert(groups[kb] == leaf_rows(flat, Seq::empty(), doc, leaves[b]));
    assert forall|j: int| 0 <= j < groups.len() && j != kb && j != ka implies (
    #[trigger] groups[j]).len() <= 1 by {
        assert(!leaves[n - 1 - j].array);
    }
    lemma_two_large_groups(groups, kb, ka);
    let m = groups[ka].len();
    let l = groups[kb].len();
    assert(l * m == m * l) by (nonlinear_arith);
}

/// Whether a value is neither an array nor an object.
pub open spec fn atom(value: Json) -> bool {
    !(value is Array) && !(value is Object)
}

/// Whether a value is a leaf as it stands: a scalar that is not null, or
/// an array that holds one scalar at least and nothing but scalars.
pub open spec fn plain_leaf(value: Json) -> bool {
    match value {
        Json::Array(items) => items.len() > 0 && forall|i: int|
            0 <= i < items.len() ==> atom(#[trigger] items[i]),
        Json::Object(_) => false,
        Json::Null => false,
        _ => true,
    }
}

/// Whether the fields are those of a document of one level: each holds a
/// leaf, and no two have the same name.
pub open spec fn one_level(fields: Seq<Field>) -> bool {
    &&& forall|i: int| 0 <= i < fields.len() ==> plain_leaf((#[trigger] fields[i]).value)
    &&& forall|i: int, j: int|
        0 <= i < j < fields.len() ==> (#[trigger] fields[i]).name != (#[trigger] fields[j]).name
}

/// The leaves of a document of one level: one for each field.
pub open spec fn field_leaves(fields: Seq<Field>) -> Seq<Leaf> {
    Seq::new(
        fields.len(),
        |i: int| Leaf { keys: seq![fields[i].name], array: fields[i].value is Array },
    )
}

/// Discovery finds in an array of scalars, read below the top, the one
/// path of the array step.
pub proof fn lemma_scalar_array_paths(items: Seq<Json>, n: nat)
    requires
        forall|i: int| 0 <= i < items.len() ==> atom(#[trigger] items[i]),
        n <= items.len(),
    ensures
        array_paths(false, items, n) == (if n == 0 {
            Seq::<Path>::empty()
        } else {
            seq![seq![PathElem::Iterator]]
        }),
    decreases n,
{
    if n > 0 {
        lemma_scalar_array_paths(items, (n - 1) as nat);
        assert(atom(items[n - 1]));
        let none = Seq::<Path>::empty();
        assert(discovered(false, items[n - 1]) == Some(none));
        let step = seq![seq![PathElem::Iterator]];
        assert(prepended(PathElem::Iterator, none) == step);
        let front = array_paths(false, items, (n - 1) as nat);
        assert(united_upto(front, step, 0) == front);
        if n == 1 {
            assert(front.push(step[0]) =~= step);
        } else {
            assert(front[0] == step[0]);
        }
        assert(united(front, step) == step);
    }
}

/// Discovery finds in a document of one level the header of its leaves.
pub proof fn lemma_one_level_paths(fields: Seq<Field>, n: nat)
    requires
        one_level(fields),
        n <= fields.len(),
    ensures
        object_paths(fields, n) == leaf_header(field_leaves(fields)).take(n as int),
    decreases n,
{
    let header = leaf_header(field_leaves(fields));
    if n == 0 {
        assert(header.take(0) =~= Seq::<Path>::empty());
    } else {
        lemma_one_level_paths(fields, (n - 1) as nat);
        let front = object_paths(fields, (n - 1) as nat);
        let f = fields[n - 1];
        let key = PathElem::Key(f.name);
        assert(plain_leaf(f.value));
        let leaf = field_leaves(fields)[n - 1];
        let p = leaf_path(leaf);
        assert(header[n - 1] == p);
        assert(key_path(leaf.keys) =~= seq![key]);
        let none = Seq::<Path>::empty();
        if f.value is Array {
            let items = f.value->Array_0;
            lemma_scalar_array_paths(items, items.len());
            let step = seq![seq![PathElem::Iterator]];
            assert(discovered(false, f.value) == Some(step));
            assert(prepended(key, step)[0] =~= p);
            assert(prepended(key, step) =~= seq![p]);
        } else {
            assert(discovered(false, f.value) == Some(none));
            assert(p =~= seq![key]);
            assert(prepended(key, none) =~= seq![p]);
        }
        let added = seq![p];
        assert(united_upto(front, added, 0) == front);
        if front.contains(p) {
            let j = choose|j: int| 0 <= j < front.len() && front[j] == p;
            assert(front[j] == header[j]);
            assert(header[j][0] == PathElem::Key(fields[j].name));
            assert(p[0] == key);
            assert(fields[j].name != fields[n - 1].name);
        }
        assert(united(front, added) == front.push(p));
        assert(front.push(p) =~= header.take(n as int));
    }
}

/// The field of a name, among fields of which no two have the same name,
/// is found under that name.
pub proof fn lemma_lookup_by_name(fields: Seq<Field>, i: int)
    requires
        0 <= i < fields.len(),
        forall|a: int, b: int|
            0 <= a < b < fields.len() ==> (#[trigger] fields[a]).name != (#[trigger] fields[b]).name,
    ensures
        Json::lookup(fields, fields[i].name) == Some(fields[i].value),
    decreases i,
{
    if i > 0 {
        let rest = fields.skip(1);
        assert(fields[0].name != fields[i].name);
        assert forall|a: int, b: int| 0 <= a < b < rest.len() implies (#[trigger] rest[a]).name != (
        #[trigger] rest[b]).name by {
            assert(rest[a] == fields[a + 1] && rest[b] == fields[b + 1]);
        }
        assert(rest[i - 1] == fields[i]);
        lemma_lookup_by_name(rest, i - 1);
    }
}

/// A document of one level, under the schema of the paths that discovery
/// finds in it, has the Cartesian join of the fragments of its fields as
/// its rows: one fragment for a scalar, one for each element of an array.
pub proof fn lemma_one_level_rows(flat: bool, fields: Seq<Field>)
    requires
        one_level(fields),
    ensures
        found(true, Json::Object(fields)) == leaf_header(field_leaves(fields)),
        leaves_of(Json::Object(fields), field_leaves(fields)),
        forall|i: int|
            0 <= i < fields.len() ==> value_at(
                Json::Object(fields),
                (#[trigger] field_leaves(fields)[i]).keys,
            ) == Some(fields[i].value),
        document_rows(flat, compiled(found(true, Json::Object(fields))), Json::Object(fields))
            == join_all(leaf_groups(flat, Json::Object(fields), field_leaves(fields))),
{
    let doc = Json::Object(fields);
    let leaves = field_leaves(fields);
    lemma_one_level_paths(fields, fields.len());
    assert(leaf_header(leaves).take(fields.len() as int) =~= leaf_header(leaves));
    assert(found(true, doc) =~= leaf_header(leaves));
    assert forall|i: int| 0 <= i < leaves.len() implies leaf_in(doc, #[trigger] leaves[i])
        && value_at(doc, leaves[i].keys) == Some(fields[i].value) by {
        lemma_lookup_by_name(fields, i);
        let keys = leaves[i].keys;
        assert(keys[0] == fields[i].name);
        assert(keys.skip(1) =~= Seq::<Seq<char>>::empty());
        assert(value_at(fields[i].value, keys.skip(1)) == Some(fields[i].value));
        assert(value_at(doc, keys) == Some(fields[i].value));
    }
    assert forall|i: int, j: int| 0 <= i < j < leaves.len() implies (#[trigger] leaves[i]).keys[0]
        != (#[trigger] leaves[j]).keys[0] by {
        assert(fields[i].name != fields[j].name);
    }
    lemma_leaves_rows(flat, doc, leaves);
}

/// A document of one level that holds scalars only, and one at least, has
/// exactly one row under the schema of the paths that discovery finds in
/// it: the row holds each field under the column of its name, and nothing
/// else.
pub proof fn lemma_scalars_give_one_row(flat: bool, fields: Seq<Field>)
    requires
        one_level(fields),
        fields.len() > 0,
        forall|i: int| 0 <= i < fields.len() ==> !((#[trigger] fields[i]).value is Array),
    ensures
        document_rows(flat, compiled(found(true, Json::Object(fields))), Json::Object(fields))
            == seq![overlay(leaf_groups(flat, Json::Object(fields), field_leaves(fields)))],
{
    lemma_one_level_rows(flat, fields);
    let leaves = field_leaves(fields);
    assert forall|i: int| 0 <= i < leaves.len() implies !(#[trigger] leaves[i]).array by {
        assert(!(fields[i].value is Array));
    }
    lemma_values_give_one_row(flat, Json::Object(fields), leaves);
}

/// A document of one level with one array of `n` elements and scalars
/// besides has `n` rows under the schema of the paths that discovery finds
/// in it. Row `i` is the one row that the document would have with the
/// `i`-th element alone in the array: the array's column holds that
/// element, and every other column holds the same in all rows.
pub proof fn lemma_one_level_one_array(flat: bool, fields: Seq<Field>, a: int, i: int)
    requires
        one_level(fields),
        0 <= a < fields.len(),
        fields[a].value is Array,
        forall|j: int| 0 <= j < fields.len() && j != a ==> !((#[trigger] fields[j]).value is Array),
        0 <= i < fields[a].value->Array_0.len(),
    ensures
        ({
            let doc = Json::Object(fields);
            let rows = document_rows(flat, compiled(found(true, doc)), doc);
            let items = fields[a].value->Array_0;
            let groups = leaf_groups(flat, doc, field_leaves(fields));
            let k = fields.len() - 1 - a;
            let one = cell(
                path_text(array_prefix(flat, seq![PathElem::Key(fields[a].name)])),
                items[i],
            );
            &&& rows.len() == items.len()
            &&& join_all(groups.update(k, seq![one])).len() == 1
            &&& rows[i] == join_all(groups.update(k, seq![one]))[0]
        }),
{
    lemma_one_level_rows(flat, fields);
    let leaves = field_leaves(fields);
    assert(leaves[a].array);
    assert forall|j: int| 0 <= j < leaves.len() && j != a implies !(#[trigger] leaves[j]).array by {
        assert(!(fields[j].value is Array));
    }
    assert(key_path(leaves[a].keys) =~= seq![PathElem::Key(fields[a].name)]);
    lemma_one_array_among_values(flat, Json::Object(fields), leaves, a, i);
}

/// A document of one level with two arrays of `m` and `n` elements and
/// scalars besides has `m * n` rows under the schema of the paths that
/// discovery finds in it.
pub proof fn lemma_one_level_two_arrays(flat: bool, fields: Seq<Field>, a: int, b: int)
    requires
        one_level(fields),
        0 <= a < b < fields.len(),
        fields[a].value is Array,
        fields[b].value is Array,
        forall|j: int|
            0 <= j < fields.len() && j != a && j != b ==> !((#[trigger] fields[j]).value is Array),
    ensures
        document_rows(
            flat,
            compiled(found(true, Json::Object(fields))),
            Json::Object(fields),
        ).len() == fields[a].value->Array_0.len() * fields[b].value->Array_0.len(),
{
    lemma_one_level_rows(flat, fields);
    let leaves = field_leaves(fields);
    assert(leaves[a].array && leaves[b].array);
    assert(plain_leaf(fields[a].value) && plain_leaf(fields[b].value));
    assert forall|j: int| 0 <= j < leaves.len() && j != a && j != b implies !(
    #[trigger] leaves[j]).array by {
        assert(!(fields[j].value is Array));
    }
    lemma_two_arrays_among_values(flat, Json::Object(fields), leaves, a, b);
}

/// A document with two arrays of `m` and `n` values, behind lists of keys
/// that part at the first key, has under the schema of the two array
/// paths `m * n` rows, one for each pair of elements: row `k` holds
/// element `k / m` of the second array and element `k % m` of the first,
/// each under the column of its array.
pub proof fn lemma_two_arrays_at_paths(
    flat: bool,
    doc: Json,
    first: Seq<Seq<char>>,
    xs: Seq<Json>,
    second: Seq<Seq<char>>,
    ys: Seq<Json>,
)
    requires
        first.len() > 0,
        second.len() > 0,
        first[0] != second[0],
        value_at(doc, first) == Some(Json::Array(xs)),
        value_at(doc, second) == Some(Json::Array(ys)),
        xs.len() > 0,
        ys.len() > 0,
    ensures
        ({
            let rows = document_rows(
                flat,
                compiled(
                    seq![
                        key_path(first).push(PathElem::Iterator),
                        key_path(second).push(PathElem::Iterator),
                    ],
                ),
                doc,
            );
            let m = xs.len() as int;
            &&& rows.len() == xs.len() * ys.len()
            &&& forall|k: int|
                0 <= k < rows.len() ==> #[trigger] rows[k] == cell(
                    path_text(array_prefix(flat, key_path(second))),
                    ys[k / m],
                ).union_prefer_right(
                    cell(path_text(array_prefix(flat, key_path(first))), xs[k % m]),
                )
        }),
{
    let p = key_path(first).push(PathElem::Iterator);
    let q = key_path(second).push(PathElem::Iterator);
    let header = seq![p, q];
    let none = Seq::<SchemaModel>::empty();
    let empty = Seq::<PathElem>::empty();
    assert(header.drop_last() =~= seq![p]);
    assert(seq![p].drop_last() =~= Seq::<Path>::empty());
    assert(compiled(seq![p].drop_last()) =~= none);
    assert(seq![p].last() == p);
    assert(!has_root(none, p));
    assert(appended(none, p) =~= seq![chain(p)]);
    assert(compiled(seq![p]) =~= seq![chain(p)]);
    assert(p[0] == PathElem::Key(first[0]));
    assert(q[0] == PathElem::Key(second[0]));
    assert(chain(p) is Node && chain(p)->Node_0 == p[0]);
    assert(!has_root(seq![chain(p)], q));
    let schema = compiled(header);
    assert(schema =~= seq![chain(q), chain(p)]);
    lemma_array_at_path_rows(flat, empty, doc, first, xs);
    lemma_array_at_path_rows(flat, empty, doc, second, ys);
    let left = extracted(doc, chain(q))->0;
    let right = extracted(doc, chain(p))->0;
    assert(extracted_all(doc, schema, 0) =~= Seq::<ValueModel>::empty());
    assert(extracted_all(doc, schema, 1) =~= seq![left]);
    assert(extracted_all(doc, schema, 2) =~= seq![left, right]);
    assert(empty + key_path(first) =~= key_path(first));
    assert(empty + key_path(second) =~= key_path(second));
    let groups = groups_of(flat, empty, seq![left, right]);
    let g0 = array_cells(flat, key_path(second), ys);
    let g1 = array_cells(flat, key_path(first), xs);
    assert(groups[0] == g0);
    assert(groups[1] == g1);
    assert(groups.drop_last() =~= seq![g0]);
    assert(seq![g0].drop_last() =~= Seq::<Seq<Row>>::empty());
    assert(join_all(seq![g0].drop_last()) =~= Seq::<Row>::empty());
    assert(join_all(seq![g0]) == g0);
    assert(groups.last() == g1);
    let rows = join_all(groups);
    let m = xs.len() as int;
    let n = ys.len() as int;
    assert(schema.len() == 2);
    assert(document_rows(flat, schema, doc) == rows);
    assert(rows.len() == n * m);
    assert(n * m == m * n) by (nonlinear_arith);
    assert(rows.len() == xs.len() * ys.len());
    let made = document_rows(flat, schema, doc);
    assert forall|k: int| 0 <= k < made.len() implies #[trigger] made[k] == cell(
        path_text(array_prefix(flat, key_path(second))),
        ys[k / m],
    ).union_prefer_right(cell(path_text(array_prefix(flat, key_path(first))), xs[k % m])) by {
        assert(0 <= k / m < n && 0 <= k % m < m) by (nonlinear_arith)
            requires
                0 <= k < n * m,
                m > 0,
        ;
    }
}

} // verus!
