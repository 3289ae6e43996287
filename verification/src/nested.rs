//! Documents of nested objects: their rows under the schema of the paths
//! that discovery finds in them.
use vstd::prelude::*;
use crate::discover::{
    discovered, found, is_path_set, lemma_discovered_path_set, lemma_prepended_path_set,
    object_paths, prepended, united_upto,
};
use crate::extract::{ValueModel, array_free, ends_here, extracted, extracted_all};
use crate::json::{Field, Json};
use crate::leaves::{array_cells, atom, lemma_lookup_by_name, lemma_scalar_array_paths};
use crate::path::{Path, PathElem, path_text};
use crate::render::document_rows;
use crate::repeats::lemma_distinct_same;
use crate::schema::{
    SchemaModel, appended, chain, compiled, forest_well_formed, has_root,
    lemma_compiled_well_formed, lemma_merged_well_formed, merged, same_root, well_formed,
};
use crate::tuples::{cell, groups_of, lemma_root_of_one, rows_of};
use crate::utils::{
    Row, all_empty, join_all, lemma_join_all_len, lemma_small_groups_give_one_row, width,
};

verus! {

/// Whether no two fields have the same name.
pub open spec fn distinct_names(fields: Seq<Field>) -> bool {
    forall|i: int, j: int|
        0 <= i < j < fields.len() ==> (#[trigger] fields[i]).name != (#[trigger] fields[j]).name
}

/// Whether a value is made of leaves and of objects that hold such values
/// under names of their own: a scalar that is not null, an array of one
/// scalar at least and of nothing but scalars, or an object of one field
/// at least, no two fields of one name, each holding such a value.
pub open spec fn tidy(value: Json) -> bool
    decreases value,
{
    match value {
        Json::Null => false,
        Json::Array(items) => items.len() > 0 && forall|i: int|
            0 <= i < items.len() ==> atom(#[trigger] items[i]),
        Json::Object(fields) => fields.len() > 0 && distinct_names(fields) && forall|i: int|
            0 <= i < fields.len() ==> tidy((#[trigger] fields[i]).value),
        _ => true,
    }
}

/// The paths of the first `n` fields, each field's paths behind its key,
/// one field after the other.
pub open spec fn grouped(fields: Seq<Field>, n: nat) -> Seq<Path>
    decreases n,
{
    if n == 0 || n > fields.len() {
        Seq::empty()
    } else {
        grouped(fields, (n - 1) as nat) + prepended(
            PathElem::Key(fields[n - 1].name),
            found(false, fields[n - 1].value),
        )
    }
}

/// The children of the schema node of a field: the end mark for a scalar,
/// else the schema of what the field's value holds.
pub open spec fn grown(value: Json) -> Seq<SchemaModel> {
    if atom(value) {
        seq![SchemaModel::End]
    } else {
        compiled(found(false, value))
    }
}

/// The schema nodes of the first `n` fields, the last field first.
pub open spec fn nodes(fields: Seq<Field>, n: nat) -> Seq<SchemaModel> {
    Seq::new(
        n,
        |j: int| SchemaModel::Node(PathElem::Key(fields[n - 1 - j].name), grown(fields[n - 1 - j].value)),
    )
}

/// What the schema node of a field finds in the field.
pub open spec fn tree_of(f: Field) -> ValueModel {
    if atom(f.value) {
        ValueModel::Single(PathElem::Key(f.name), f.value)
    } else {
        ValueModel::Root(
            PathElem::Key(f.name),
            extracted_all(f.value, grown(f.value), grown(f.value).len()),
        )
    }
}

/// The rows of a value that stands at `place`: a scalar gives one
/// fragment, an array one for each element, an object the Cartesian join
/// of what its fields give, the last field first.
pub open spec fn tidy_rows(flat: bool, place: Path, value: Json) -> Seq<Row>
    decreases value, 0int,
{
    match value {
        Json::Array(items) => array_cells(flat, place, items),
        Json::Object(fields) => join_all(field_groups(flat, place, fields)),
        _ => seq![cell(path_text(place), value)],
    }
}

/// The rows of each field of an object that stands at `place`, the last
/// field first.
pub open spec fn field_groups(flat: bool, place: Path, fields: Seq<Field>) -> Seq<Seq<Row>>
    decreases fields, 1int,
{
    Seq::new(
        fields.len(),
        |j: int|
            if 0 <= j < fields.len() {
                tidy_rows(
                    flat,
                    place.push(PathElem::Key(fields[fields.len() - 1 - j].name)),
                    fields[fields.len() - 1 - j].value,
                )
            } else {
                Seq::empty()
            },
    )
}

/// Uniting with paths of which none is there yet, and none twice, puts
/// them behind.
pub proof fn lemma_united_apart(a: Seq<Path>, b: Seq<Path>, n: nat)
    requires
        b.no_duplicates(),
        forall|i: int| 0 <= i < b.len() ==> !a.contains(#[trigger] b[i]),
        n <= b.len(),
    ensures
        united_upto(a, b, n) == a + b.take(n as int),
    decreases n,
{
    if n == 0 {
        assert(a + b.take(0) =~= a);
    } else {
        lemma_united_apart(a, b, (n - 1) as nat);
        let front = a + b.take(n - 1);
        if front.contains(b[n - 1]) {
            let k = choose|k: int| 0 <= k < front.len() && front[k] == b[n - 1];
            if k < a.len() {
                assert(a[k] == b[n - 1]);
                assert(a.contains(b[n - 1]));
            } else {
                assert(b[k - a.len()] == b[n - 1]);
            }
        }
        assert(front.push(b[n - 1]) =~= a + b.take(n as int));
    }
}

/// What discovery finds in a tidy value read below the top: no path in a
/// scalar, and a path at least in an array and in an object.
pub proof fn lemma_tidy_found(value: Json)
    requires
        tidy(value),
    ensures
        discovered(false, value) == Some(found(false, value)),
        value.non_empty(),
        atom(value) <==> found(false, value).len() == 0,
        is_path_set(found(false, value)),
        value is Array ==> found(false, value) == seq![seq![PathElem::Iterator]],
        value matches Json::Object(fields) ==> found(false, value) == grouped(fields, fields.len())
            && found(true, value) == grouped(fields, fields.len()),
    decreases value, 0int,
{
    lemma_discovered_path_set(false, value);
    match value {
        Json::Array(items) => {
            lemma_scalar_array_paths(items, items.len());
        },
        Json::Object(fields) => {
            lemma_tidy_paths(fields, fields.len());
        },
        _ => {},
    }
}

/// What discovery finds in the first `n` fields of a tidy object: each
/// field's paths behind its key, one field after the other.
pub proof fn lemma_tidy_paths(fields: Seq<Field>, n: nat)
    requires
        distinct_names(fields),
        forall|i: int| 0 <= i < fields.len() ==> tidy((#[trigger] fields[i]).value),
        n <= fields.len(),
    ensures
        object_paths(fields, n) == grouped(fields, n),
        n > 0 ==> grouped(fields, n).len() > 0,
        forall|i: int|
            0 <= i < grouped(fields, n).len() ==> (#[trigger] grouped(fields, n)[i]).len() > 0
                && exists|j: int|
                0 <= j < n && grouped(fields, n)[i][0] == PathElem::Key((#[trigger] fields[j]).name),
    decreases fields, n,
{
    if n > 0 {
        lemma_tidy_paths(fields, (n - 1) as nat);
        let f = fields[n - 1];
        assert(tidy(f.value));
        lemma_tidy_found(f.value);
        let key = PathElem::Key(f.name);
        let sub = found(false, f.value);
        let added = prepended(key, sub);
        lemma_prepended_path_set(key, sub);
        let front = grouped(fields, (n - 1) as nat);
        assert forall|i: int| 0 <= i < added.len() implies (#[trigger] added[i]).len() > 0
            && added[i][0] == key by {}
        assert forall|i: int| 0 <= i < added.len() implies !front.contains(#[trigger] added[i]) by {
            if front.contains(added[i]) {
                let k = choose|k: int| 0 <= k < front.len() && front[k] == added[i];
                let j = choose|j: int|
                    0 <= j < n - 1 && front[k][0] == PathElem::Key((#[trigger] fields[j]).name);
                assert(fields[j].name != fields[n - 1].name);
            }
        }
        lemma_united_apart(front, added, added.len());
        assert(added.take(added.len() as int) =~= added);
        let all = grouped(fields, n);
        assert forall|i: int| 0 <= i < all.len() implies (#[trigger] all[i]).len() > 0 && exists|
            j: int,
        | 0 <= j < n && all[i][0] == PathElem::Key((#[trigger] fields[j]).name) by {
            if i < front.len() {
                assert(all[i] == front[i]);
                let j = choose|j: int|
                    0 <= j < n - 1 && front[i][0] == PathElem::Key((#[trigger] fields[j]).name);
                assert(0 <= j < n && all[i][0] == PathElem::Key(fields[j].name));
            } else {
                assert(all[i] == added[i - front.len()]);
                assert(all[i][0] == PathElem::Key(fields[n - 1].name));
            }
        }
    }
}

/// Adding a path to a forest without repeats leaves it without repeats.
pub proof fn lemma_appended_no_duplicates(forest: Seq<SchemaModel>, p: Path)
    requires
        forest_well_formed(forest),
        forest.no_duplicates(),
        forall|i: int| 0 <= i < forest.len() ==> (#[trigger] forest[i]) is Node,
        p.len() > 0,
    ensures
        appended(forest, p).no_duplicates(),
        forall|i: int| 0 <= i < appended(forest, p).len() ==> (#[trigger] appended(forest, p)[i]) is Node,
        appended(forest, p).len() > 0,
{
    let out = appended(forest, p);
    if has_root(forest, p) {
        assert forall|a: int| 0 <= a < out.len() implies (#[trigger] out[a]) is Node && out[a]->Node_0
            == forest[a]->Node_0 by {
            assert(well_formed(forest[a]));
            assert(forest[a] is Node);
            if same_root(forest[a], p) {
                lemma_merged_well_formed(forest[a], p);
            }
        }
        assert forall|a: int, b: int| 0 <= a < out.len() && 0 <= b < out.len() && a != b implies out[a]
            != out[b] by {
            assert(forest[a] is Node && forest[b] is Node);
            if a < b {
                assert(forest[a]->Node_0 != forest[b]->Node_0);
            } else {
                assert(forest[b]->Node_0 != forest[a]->Node_0);
            }
        }
    } else {
        assert(out[0] == chain(p));
        assert forall|a: int| 0 <= a < out.len() implies (#[trigger] out[a]) is Node by {
            if a > 0 {
                assert(out[a] == forest[a - 1]);
            }
        }
        assert forall|a: int, b: int| 0 <= a < out.len() && 0 <= b < out.len() && a != b implies out[a]
            != out[b] by {
            if a > 0 && b > 0 {
                assert(out[a] == forest[a - 1] && out[b] == forest[b - 1]);
            } else if a == 0 {
                assert(out[b] == forest[b - 1]);
                assert(!same_root(forest[b - 1], p));
            } else {
                assert(out[a] == forest[a - 1]);
                assert(!same_root(forest[a - 1], p));
            }
        }
    }
}

/// The schema of a list of paths, none of them empty, holds nodes only
/// and none twice.
pub proof fn lemma_compiled_nodes(paths: Seq<Path>)
    requires
        forall|i: int| 0 <= i < paths.len() ==> (#[trigger] paths[i]).len() > 0,
    ensures
        forest_well_formed(compiled(paths)),
        compiled(paths).no_duplicates(),
        forall|i: int| 0 <= i < compiled(paths).len() ==> (#[trigger] compiled(paths)[i]) is Node,
        paths.len() > 0 ==> compiled(paths).len() > 0,
    decreases paths.len(),
{
    lemma_compiled_well_formed(paths);
    if paths.len() > 0 {
        let front = paths.drop_last();
        assert forall|i: int| 0 <= i < front.len() implies (#[trigger] front[i]).len() > 0 by {
            assert(front[i] == paths[i]);
        }
        lemma_compiled_nodes(front);
        assert(paths.last() == paths[paths.len() - 1]);
        lemma_appended_no_duplicates(compiled(front), paths.last());
    }
}

/// The schema of paths followed by the paths of one more field: the node
/// of that field, holding the schema of what stands behind its key, before
/// the schema of the paths before.
pub proof fn lemma_compiled_group(a: Seq<Path>, key: PathElem, sub: Seq<Path>, m: nat)
    requires
        forall|j: int|
            0 <= j < compiled(a).len() ==> !((#[trigger] compiled(a)[j]) is Node && compiled(
                a,
            )[j]->Node_0 == key),
        forall|i: int| 0 <= i < sub.len() ==> (#[trigger] sub[i]).len() > 0,
        1 <= m <= prepended(key, sub).len(),
    ensures
        compiled(a + prepended(key, sub).take(m as int)) == seq![
            SchemaModel::Node(
                key,
                if sub.len() == 0 {
                    seq![SchemaModel::End]
                } else {
                    compiled(sub.take(m as int))
                },
            ),
        ] + compiled(a),
    decreases m,
{
    let group = prepended(key, sub);
    let base = compiled(a);
    let list = a + group.take(m as int);
    let p = group[m - 1];
    assert(list.last() == p);
    assert(p[0] == key);
    if m == 1 {
        assert(list.drop_last() =~= a);
        assert forall|j: int| 0 <= j < base.len() implies !same_root(#[trigger] base[j], p) by {}
        assert(!has_root(base, p));
        if sub.len() == 0 {
            assert(p =~= seq![key]);
            assert(p.skip(1) =~= Seq::<PathElem>::empty());
            assert(chain(p.skip(1)) == SchemaModel::End);
        } else {
            assert(p.skip(1) =~= sub[0]);
            let one = sub.take(1);
            assert(one.drop_last() =~= Seq::<Path>::empty());
            assert(compiled(one.drop_last()) =~= Seq::<SchemaModel>::empty());
            assert(one.last() == sub[0]);
            assert(!has_root(Seq::<SchemaModel>::empty(), sub[0]));
            assert(compiled(one) =~= seq![chain(sub[0])]);
        }
    } else {
        lemma_compiled_group(a, key, sub, (m - 1) as nat);
        assert(list.drop_last() =~= a + group.take(m - 1));
        let kids = compiled(sub.take(m - 1));
        let before = seq![SchemaModel::Node(key, kids)] + base;
        let s = sub[m - 1];
        assert(p.skip(1) =~= s);
        assert(p.len() >= 2);
        let earlier = sub.take(m - 1);
        assert forall|i: int| 0 <= i < earlier.len() implies (#[trigger] earlier[i]).len() > 0 by {
            assert(earlier[i] == sub[i]);
        }
        lemma_compiled_nodes(earlier);
        lemma_appended_no_duplicates(kids, s);
        lemma_distinct_same(appended(kids, s));
        assert(sub.take(m as int).drop_last() =~= earlier);
        assert(sub.take(m as int).last() == s);
        assert(same_root(before[0], p));
        assert(has_root(before, p));
        let want = seq![SchemaModel::Node(key, compiled(sub.take(m as int)))] + base;
        let out = appended(before, p);
        assert forall|j: int| 0 <= j < out.len() implies out[j] == want[j] by {
            if j > 0 {
                assert(before[j] == base[j - 1]);
                assert(!same_root(base[j - 1], p));
            } else {
                assert(merged(before[0], p) == SchemaModel::Node(key, compiled(sub.take(m as int))));
            }
        }
        assert(out =~= want);
    }
}

/// The schema of what discovery finds in the first `n` fields of a tidy
/// object: one node for each field, the last field first.
pub proof fn lemma_tidy_schema(fields: Seq<Field>, n: nat)
    requires
        distinct_names(fields),
        forall|i: int| 0 <= i < fields.len() ==> tidy((#[trigger] fields[i]).value),
        n <= fields.len(),
    ensures
        compiled(grouped(fields, n)) == nodes(fields, n),
    decreases n,
{
    if n == 0 {
        assert(compiled(grouped(fields, 0)) =~= nodes(fields, 0));
    } else {
        lemma_tidy_schema(fields, (n - 1) as nat);
        let a = grouped(fields, (n - 1) as nat);
        let f = fields[n - 1];
        let key = PathElem::Key(f.name);
        assert(tidy(f.value));
        lemma_tidy_found(f.value);
        let sub = found(false, f.value);
        let group = prepended(key, sub);
        assert forall|j: int| 0 <= j < compiled(a).len() implies !((#[trigger] compiled(a)[j]) is Node
            && compiled(a)[j]->Node_0 == key) by {
            assert(fields[n - 2 - j].name != fields[n - 1].name);
        }
        lemma_compiled_group(a, key, sub, group.len());
        assert(group.take(group.len() as int) =~= group);
        assert(sub.take(sub.len() as int) =~= sub);
        if sub.len() > 0 {
            assert(group.len() == sub.len());
        }
        assert(seq![SchemaModel::Node(key, grown(f.value))] + nodes(fields, (n - 1) as nat) =~= nodes(
            fields,
            n,
        ));
    }
}

/// What the schema nodes of a tidy object find in it: for each field, the
/// last first, the tree of the field.
pub proof fn lemma_tidy_trees(fields: Seq<Field>, k: nat)
    requires
        tidy(Json::Object(fields)),
        k <= fields.len(),
    ensures
        extracted_all(Json::Object(fields), nodes(fields, fields.len()), k) == Seq::new(
            k,
            |j: int| tree_of(fields[fields.len() - 1 - j]),
        ),
    decreases k,
{
    let doc = Json::Object(fields);
    let n = fields.len() as int;
    let schema = nodes(fields, fields.len());
    let want = Seq::new(k, |j: int| tree_of(fields[n - 1 - j]));
    if k == 0 {
        assert(extracted_all(doc, schema, 0) =~= want);
    } else {
        lemma_tidy_trees(fields, (k - 1) as nat);
        let f = fields[n - k];
        assert(schema[k - 1] == SchemaModel::Node(PathElem::Key(f.name), grown(f.value)));
        lemma_lookup_by_name(fields, n - k);
        assert(tidy(f.value));
        lemma_tidy_found(f.value);
        if !atom(f.value) {
            let sub = found(false, f.value);
            assert forall|i: int| 0 <= i < sub.len() implies (#[trigger] sub[i]).len() > 0 by {}
            lemma_compiled_nodes(sub);
            assert(grown(f.value)[0] is Node);
            assert(!ends_here(grown(f.value)));
        } else {
            assert(ends_here(grown(f.value)));
        }
        assert(extracted(doc, schema[k - 1]) == Some(tree_of(f)));
        assert(extracted_all(doc, schema, k) =~= want);
    }
}

/// The tree of a field that holds a tidy value unfolds into the rows of
/// that value.
pub proof fn lemma_tidy_tree_rows(flat: bool, prefix: Path, f: Field)
    requires
        tidy(f.value),
    ensures
        rows_of(flat, prefix, tree_of(f)) == tidy_rows(
            flat,
            prefix.push(PathElem::Key(f.name)),
            f.value,
        ),
    decreases f.value,
{
    let key = PathElem::Key(f.name);
    let place = prefix.push(key);
    lemma_tidy_found(f.value);
    match f.value {
        Json::Array(items) => {
            let step: Path = seq![PathElem::Iterator];
            let paths = seq![step];
            assert(paths.drop_last() =~= Seq::<Path>::empty());
            assert(compiled(paths.drop_last()) =~= Seq::<SchemaModel>::empty());
            assert(!has_root(Seq::<SchemaModel>::empty(), step));
            assert(step.skip(1) =~= Seq::<PathElem>::empty());
            assert(chain(step.skip(1)) == SchemaModel::End);
            let leaf = SchemaModel::Node(PathElem::Iterator, seq![SchemaModel::End]);
            assert(chain(step) == leaf);
            assert(compiled(paths) =~= seq![leaf]);
            assert(grown(f.value) == seq![leaf]);
            assert(extracted(f.value, leaf) == Some(ValueModel::Array(items)));
            assert(extracted_all(f.value, seq![leaf], 0) =~= Seq::<ValueModel>::empty());
            assert(extracted_all(f.value, seq![leaf], 1) =~= seq![ValueModel::Array(items)]);
            lemma_root_of_one(flat, prefix, key, ValueModel::Array(items));
            assert(rows_of(flat, place, ValueModel::Array(items)) =~= array_cells(flat, place, items));
        },
        Json::Object(sub) => {
            lemma_tidy_schema(sub, sub.len());
            lemma_tidy_trees(sub, sub.len());
            let trees = extracted_all(f.value, grown(f.value), grown(f.value).len());
            let groups = groups_of(flat, place, trees);
            let want = field_groups(flat, place, sub);
            assert(groups.len() == want.len());
            assert forall|j: int| 0 <= j < groups.len() implies groups[j] == want[j] by {
                let inner = sub[sub.len() - 1 - j];
                assert(tidy(inner.value));
                lemma_tidy_tree_rows(flat, place, inner);
            }
            assert(groups =~= want);
        },
        _ => {},
    }
}

/// The rows of a tidy document under the schema of the paths that
/// discovery finds in it: the Cartesian join of what its fields give, a
/// scalar one fragment under the column of its path, an array one
/// fragment for each element, an object the join of its own fields.
pub proof fn lemma_tidy_document_rows(flat: bool, fields: Seq<Field>)
    requires
        tidy(Json::Object(fields)),
    ensures
        document_rows(flat, compiled(found(true, Json::Object(fields))), Json::Object(fields))
            == tidy_rows(flat, Seq::empty(), Json::Object(fields)),
{
    let doc = Json::Object(fields);
    lemma_tidy_found(doc);
    lemma_tidy_schema(fields, fields.len());
    lemma_tidy_trees(fields, fields.len());
    let schema = compiled(found(true, doc));
    let trees = extracted_all(doc, schema, schema.len());
    let empty = Seq::<PathElem>::empty();
    let groups = groups_of(flat, empty, trees);
    let want = field_groups(flat, empty, fields);
    assert(groups.len() == want.len());
    assert forall|j: int| 0 <= j < groups.len() implies groups[j] == want[j] by {
        let inner = fields[fields.len() - 1 - j];
        assert(tidy(inner.value));
        lemma_tidy_tree_rows(flat, empty, inner);
    }
    assert(groups =~= want);
}

/// A tidy value without arrays gives exactly one row.
pub proof fn lemma_tidy_without_arrays(flat: bool, place: Path, value: Json)
    requires
        tidy(value),
        array_free(value),
    ensures
        tidy_rows(flat, place, value).len() == 1,
    decreases value,
{
    match value {
        Json::Object(fields) => {
            let groups = field_groups(flat, place, fields);
            assert forall|j: int| 0 <= j < groups.len() implies (#[trigger] groups[j]).len() == 1 by {
                let inner = fields[fields.len() - 1 - j];
                assert(tidy(inner.value));
                assert(array_free(inner.value));
                lemma_tidy_without_arrays(flat, place.push(PathElem::Key(inner.name)), inner.value);
            }
            assert(groups[0].len() == 1);
            assert(!all_empty(groups));
            lemma_small_groups_give_one_row(groups);
        },
        _ => {},
    }
}

/// A tidy document without arrays has exactly one row under the schema of
/// the paths that discovery finds in it.
pub proof fn lemma_tidy_document_one_row(flat: bool, fields: Seq<Field>)
    requires
        tidy(Json::Object(fields)),
        array_free(Json::Object(fields)),
    ensures
        document_rows(
            flat,
            compiled(found(true, Json::Object(fields))),
            Json::Object(fields),
        ).len() == 1,
{
    lemma_tidy_document_rows(flat, fields);
    lemma_tidy_without_arrays(flat, Seq::empty(), Json::Object(fields));
}

/// The number of rows of a value: one for a scalar, the number of its
/// elements for an array, and for an object the product of the numbers of
/// its fields.
pub open spec fn rows_count(value: Json) -> nat
    decreases value, 0int,
{
    match value {
        Json::Array(items) => items.len(),
        Json::Object(fields) => count_from(fields, 0),
        _ => 1,
    }
}

/// The product of the numbers of rows of the fields from the `k`-th on.
pub open spec fn count_from(fields: Seq<Field>, k: nat) -> nat
    decreases fields, fields.len() - k,
{
    if k >= fields.len() {
        1
    } else {
        count_from(fields, k + 1) * rows_count(fields[k as int].value)
    }
}

/// A tidy value has as many rows as the product of the lengths of the
/// arrays in it, and so one at least.
pub proof fn lemma_tidy_rows_count(flat: bool, place: Path, value: Json)
    requires
        tidy(value),
    ensures
        tidy_rows(flat, place, value).len() == rows_count(value),
        rows_count(value) >= 1,
    decreases value, 0int,
{
    match value {
        Json::Object(fields) => {
            lemma_tidy_fields_count(flat, place, fields, fields.len());
            let groups = field_groups(flat, place, fields);
            assert(groups.take(groups.len() as int) =~= groups);
            lemma_join_all_len(groups);
            assert(groups[0].len() > 0);
            assert(!all_empty(groups));
        },
        _ => {},
    }
}

/// The first `m` groups of the fields of a tidy object hold a fragment
/// each, and the product of their sizes is the product of the numbers of
/// rows of the last `m` fields.
pub proof fn lemma_tidy_fields_count(flat: bool, place: Path, fields: Seq<Field>, m: nat)
    requires
        forall|i: int| 0 <= i < fields.len() ==> tidy((#[trigger] fields[i]).value),
        m <= fields.len(),
    ensures
        width(field_groups(flat, place, fields).take(m as int)) == count_from(
            fields,
            (fields.len() - m) as nat,
        ),
        count_from(fields, (fields.len() - m) as nat) >= 1,
        forall|j: int|
            0 <= j < m ==> (#[trigger] field_groups(flat, place, fields)[j]).len() > 0,
    decreases fields, m,
{
    let groups = field_groups(flat, place, fields);
    if m > 0 {
        lemma_tidy_fields_count(flat, place, fields, (m - 1) as nat);
        let k = fields.len() - m;
        let f = fields[k];
        assert(tidy(f.value));
        lemma_tidy_rows_count(flat, place.push(PathElem::Key(f.name)), f.value);
        assert(groups.take(m as int).drop_last() =~= groups.take(m - 1));
        assert(groups.take(m as int).last() == groups[m - 1]);
        assert(groups[m - 1].len() == rows_count(f.value));
        let below = count_from(fields, (k + 1) as nat);
        assert(below * rows_count(f.value) >= 1) by (nonlinear_arith)
            requires
                below >= 1,
                rows_count(f.value) >= 1,
        ;
    }
}

/// The Cartesian law for a tidy document: under the schema of the paths
/// that discovery finds in it, it has as many rows as the product of the
/// lengths of its arrays.
pub proof fn lemma_tidy_document_count(flat: bool, fields: Seq<Field>)
    requires
        tidy(Json::Object(fields)),
    ensures
        document_rows(
            flat,
            compiled(found(true, Json::Object(fields))),
            Json::Object(fields),
        ).len() == rows_count(Json::Object(fields)),
{
    lemma_tidy_document_rows(flat, fields);
    lemma_tidy_rows_count(flat, Seq::empty(), Json::Object(fields));
}

} // verus!
