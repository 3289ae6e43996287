//! Flattening: the rows that a value tree unfolds into.
use vstd::prelude::*;
use crate::extract::{
    array_less, JsonTree, JsonValueTree, ValueModel, lemma_view_root, lemma_view_tree_array, tree_lists_view,
    trees_view,
};
use crate::json::Json;
use crate::path::{JsonPath, JsonPathElement, Path, PathElem, copy_path, json_path_string, path_text, path_view};
use crate::utils::{
    Fragment, Row, all_empty, cross_fold, groups_view, join_all, lemma_one_large_group,
    lemma_small_groups_give_one_row, lemma_two_large_groups, overlay, rows_view,
};

verus! {

/// The prefix under which the elements of an array stand: the prefix
/// itself in flat mode, else the prefix with an array step.
pub open spec fn array_prefix(flat: bool, prefix: Path) -> Path {
    if flat {
        prefix
    } else {
        prefix.push(PathElem::Iterator)
    }
}

/// The row that holds one column.
pub open spec fn cell(column: Seq<char>, value: Json) -> Row {
    Map::<Seq<char>, Json>::empty().insert(column, value)
}

/// The first `n` lists, one after the other.
pub open spec fn concat_all(lists: Seq<Seq<Row>>, n: nat) -> Seq<Row>
    decreases n,
{
    if n == 0 || n > lists.len() {
        Seq::empty()
    } else {
        concat_all(lists, (n - 1) as nat) + lists[n - 1]
    }
}

/// The row fragments of one value tree under a prefix.
///
/// A single value gives one fragment, its column named by the prefix and
/// the key. An array of values gives one fragment for each element, all
/// under the column of the array. A root gives the Cartesian join of what
/// its children give under the prefix and its key. An array of trees gives,
/// for each element in turn, the Cartesian join of what that element's
/// trees give.
pub open spec fn rows_of(flat: bool, prefix: Path, t: ValueModel) -> Seq<Row>
    decreases t, 0int,
{
    match t {
        ValueModel::Root(el, children) => join_all(groups_of(flat, prefix.push(el), children)),
        ValueModel::Single(el, value) => seq![cell(path_text(prefix.push(el)), value)],
        ValueModel::Array(items) => Seq::new(
            items.len(),
            |i: int| cell(path_text(array_prefix(flat, prefix)), items[i]),
        ),
        ValueModel::Trees(lists) => concat_all(
            element_rows(flat, array_prefix(flat, prefix), lists),
            lists.len(),
        ),
    }
}

/// For each element of an array of trees, the Cartesian join of what the
/// element's trees give under a prefix.
pub open spec fn element_rows(flat: bool, prefix: Path, lists: Seq<Seq<ValueModel>>) -> Seq<
    Seq<Row>,
>
    decreases lists, 2int,
{
    Seq::new(
        lists.len(),
        |i: int|
            if 0 <= i < lists.len() {
                join_all(groups_of(flat, prefix, lists[i]))
            } else {
                Seq::empty()
            },
    )
}

/// For each tree of a list, its row fragments under a prefix.
pub open spec fn groups_of(flat: bool, prefix: Path, trees: Seq<ValueModel>) -> Seq<Seq<Row>>
    decreases trees, 1int,
{
    Seq::new(
        trees.len(),
        |i: int|
            if 0 <= i < trees.len() {
                rows_of(flat, prefix, trees[i])
            } else {
                Seq::empty()
            },
    )
}

/// The rows of a document: the Cartesian join of what its value trees give.
pub open spec fn tuples_of(flat: bool, trees: Seq<ValueModel>) -> Seq<Row> {
    join_all(groups_of(flat, Seq::empty(), trees))
}

/// The path with one more step.
pub fn extended(path: &JsonPath, el: JsonPathElement) -> (r: JsonPath)
    ensures
        path_view(r@) == path_view(path@).push(el@),
{
    let mut out = copy_path(path);
    let ghost before = path_view(out@);
    out.push(el);
    assert(path_view(out@) =~= before.push(el@));
    out
}

/// The row fragments of one value tree under the prefix `jp`.
#[verifier::loop_isolation(false)]
pub fn gen_maps(flat: bool, jp: &JsonPath, jvt: &JsonValueTree) -> (r: Vec<Fragment>)
    ensures
        rows_view(r@) == rows_of(flat, path_view(jp@), jvt@),
    decreases jvt, 1int,
{
    match jvt {
        JsonValueTree::ValueRoot(jpe, trees) => {
            proof {
                lemma_view_root(*jpe, *trees);
            }
            let jp1 = extended(jp, jpe.duplicate());
            assert forall|j: int| 0 <= j < trees@.len() implies decreases_to!(jvt => #[trigger] trees@[j]) by {}
            cross_fold(gen_groups(flat, &jp1, jvt, trees))
        },
        JsonValueTree::SingleValue(jpe, value) => {
            let jp1 = extended(jp, jpe.duplicate());
            let mut out: Vec<Fragment> = Vec::new();
            out.push(Fragment::single(json_path_string(jp1), value.duplicate()));
            assert(rows_view(out@) =~= rows_of(flat, path_view(jp@), jvt@));
            out
        },
        JsonValueTree::ValueArray(values) => {
            let jp1 = if flat {
                copy_path(jp)
            } else {
                extended(jp, JsonPathElement::Iterator)
            };
            let column = json_path_string(jp1);
            let mut out: Vec<Fragment> = Vec::new();
            let mut i: usize = 0;
            while i < values.len()
                invariant
                    i <= values.len(),
                    out@.len() == i,
                    forall|j: int| 0 <= j < i ==> (#[trigger] out@[j])@ == cell(column@, values@[j]@),
                decreases values.len() - i,
            {
                out.push(Fragment::single(column.clone(), values[i].duplicate()));
                i += 1;
            }
            assert(rows_view(out@) =~= rows_of(flat, path_view(jp@), jvt@));
            out
        },
        JsonValueTree::TreeArray(lists) => {
            proof {
                lemma_view_tree_array(*lists);
            }
            let jp1 = if flat {
                copy_path(jp)
            } else {
                extended(jp, JsonPathElement::Iterator)
            };
            let ghost prefix = array_prefix(flat, path_view(jp@));
            let ghost models = tree_lists_view(lists@);
            let ghost per_element = element_rows(flat, prefix, models);
            let mut out: Vec<Fragment> = Vec::new();
            let mut i: usize = 0;
            assert(rows_view(out@) =~= concat_all(per_element, 0));
            while i < lists.len()
                invariant
                    i <= lists.len(),
                    rows_view(out@) == concat_all(per_element, i as nat),
                decreases lists.len() - i,
            {
                assert forall|j: int| 0 <= j < lists@[i as int]@.len() implies decreases_to!(jvt => #[trigger] lists@[i as int]@[j]) by {}
                let mut rows = cross_fold(gen_groups(flat, &jp1, jvt, &lists[i]));
                let ghost before = rows_view(out@);
                let ghost added = rows_view(rows@);
                out.append(&mut rows);
                proof {
                    assert(added == per_element[i as int]);
                    assert(rows_view(out@) =~= before + added);
                }
                i += 1;
            }
            assert(rows_of(flat, path_view(jp@), jvt@) == concat_all(per_element, models.len()));
            out
        },
    }
}

/// For each tree of a list, its row fragments under the prefix `jp`.
#[verifier::loop_isolation(false)]
fn gen_groups(flat: bool, jp: &JsonPath, parent: &JsonValueTree, trees: &Vec<JsonValueTree>) -> (r:
    Vec<Vec<Fragment>>)
    requires
        forall|j: int| 0 <= j < trees@.len() ==> decreases_to!(parent => #[trigger] trees@[j]),
    ensures
        groups_view(r@) == groups_of(flat, path_view(jp@), trees_view(trees@)),
    decreases parent, 0int,
{
    let mut groups: Vec<Vec<Fragment>> = Vec::new();
    let mut i: usize = 0;
    while i < trees.len()
        invariant
            i <= trees.len(),
            groups@.len() == i,
            forall|j: int|
                0 <= j < i ==> rows_view(#[trigger] groups@[j]@) == rows_of(
                    flat,
                    path_view(jp@),
                    trees@[j]@,
                ),
        decreases trees.len() - i,
    {
        assert(decreases_to!(parent => trees@[i as int]));
        groups.push(gen_maps(flat, jp, &trees[i]));
        i += 1;
    }
    assert(groups_view(groups@) =~= groups_of(flat, path_view(jp@), trees_view(trees@)));
    groups
}

/// The rows of one document: the Cartesian join of the row fragments of
/// its value trees.
pub fn generate_tuples(flat: bool, tree: JsonTree) -> (r: Vec<Fragment>)
    ensures
        rows_view(r@) == tuples_of(flat, trees_view(tree@)),
{
    let root: JsonPath = Vec::new();
    assert(path_view(root@) =~= Seq::empty());
    let mut groups: Vec<Vec<Fragment>> = Vec::new();
    let mut i: usize = 0;
    while i < tree.len()
        invariant
            i <= tree.len(),
            groups@.len() == i,
            path_view(root@) == Seq::<PathElem>::empty(),
            forall|j: int|
                0 <= j < i ==> rows_view(#[trigger] groups@[j]@) == rows_of(
                    flat,
                    Seq::empty(),
                    tree@[j]@,
                ),
        decreases tree.len() - i,
    {
        groups.push(gen_maps(flat, &root, &tree[i]));
        i += 1;
    }
    assert(groups_view(groups@) =~= groups_of(flat, Seq::empty(), trees_view(tree@)));
    cross_fold(groups)
}

/// An array of `n` values unfolds into `n` fragments, the `i`-th holding
/// the `i`-th element under the column of the array.
pub proof fn lemma_array_rows(flat: bool, prefix: Path, items: Seq<Json>)
    ensures
        rows_of(flat, prefix, ValueModel::Array(items)).len() == items.len(),
        forall|i: int|
            0 <= i < items.len() ==> (#[trigger] rows_of(flat, prefix, ValueModel::Array(items))[i])
                == cell(path_text(array_prefix(flat, prefix)), items[i]),
{
}

/// A root with one child unfolds into what the child unfolds into under
/// the root's key.
pub proof fn lemma_root_of_one(flat: bool, prefix: Path, el: PathElem, child: ValueModel)
    ensures
        rows_of(flat, prefix, ValueModel::Root(el, seq![child])) == rows_of(
            flat,
            prefix.push(el),
            child,
        ),
{
    let groups = groups_of(flat, prefix.push(el), seq![child]);
    assert(groups.drop_last() =~= Seq::<Seq<Row>>::empty());
    assert(join_all(groups.drop_last()) =~= Seq::<Row>::empty());
    assert(groups.last() == rows_of(flat, prefix.push(el), child));
}

/// A value tree without arrays unfolds into at most one fragment.
pub proof fn lemma_plain_tree_rows(flat: bool, prefix: Path, t: ValueModel)
    requires
        array_less(t),
    ensures
        rows_of(flat, prefix, t).len() <= 1,
    decreases t,
{
    match t {
        ValueModel::Root(el, children) => {
            let groups = groups_of(flat, prefix.push(el), children);
            assert forall|i: int| 0 <= i < groups.len() implies (#[trigger] groups[i]).len() <= 1 by {
                assert(array_less(children[i]));
                lemma_plain_tree_rows(flat, prefix.push(el), children[i]);
            }
            lemma_small_groups_give_one_row(groups);
        },
        _ => {},
    }
}

/// Value trees without arrays give at most one row, and exactly one as
/// soon as one of them gives a fragment: the row that holds what every
/// tree gives.
pub proof fn lemma_plain_trees_give_one_row(flat: bool, trees: Seq<ValueModel>)
    requires
        forall|i: int| 0 <= i < trees.len() ==> array_less(#[trigger] trees[i]),
    ensures
        tuples_of(flat, trees).len() == (if all_empty(groups_of(flat, Seq::empty(), trees)) {
            0nat
        } else {
            1nat
        }),
        !all_empty(groups_of(flat, Seq::empty(), trees)) ==> tuples_of(flat, trees)[0] == overlay(
            groups_of(flat, Seq::empty(), trees),
        ),
{
    let groups = groups_of(flat, Seq::empty(), trees);
    assert forall|i: int| 0 <= i < groups.len() implies (#[trigger] groups[i]).len() <= 1 by {
        assert(array_less(trees[i]));
        lemma_plain_tree_rows(flat, Seq::empty(), trees[i]);
    }
    lemma_small_groups_give_one_row(groups);
}

/// Where one value tree unfolds into `n` fragments and every other into at
/// most one, the document has `n` rows, and row `i` is the one row that
/// the document would have had that tree given its `i`-th fragment alone.
pub proof fn lemma_one_array_gives_n_rows(flat: bool, trees: Seq<ValueModel>, k: int, i: int)
    requires
        0 <= k < trees.len(),
        forall|j: int|
            0 <= j < trees.len() && j != k ==> rows_of(flat, Seq::empty(), #[trigger] trees[j]).len()
                <= 1,
        0 <= i < rows_of(flat, Seq::empty(), trees[k]).len(),
    ensures
        tuples_of(flat, trees).len() == rows_of(flat, Seq::empty(), trees[k]).len(),
        tuples_of(flat, trees)[i] == join_all(
            groups_of(flat, Seq::empty(), trees).update(
                k,
                seq![rows_of(flat, Seq::empty(), trees[k])[i]],
            ),
        )[0],
{
    let groups = groups_of(flat, Seq::empty(), trees);
    assert forall|j: int| 0 <= j < groups.len() && j != k implies (#[trigger] groups[j]).len()
        <= 1 by {
        assert(groups[j] == rows_of(flat, Seq::empty(), trees[j]));
    }
    assert(groups[k] == rows_of(flat, Seq::empty(), trees[k]));
    lemma_one_large_group(groups, k, i);
}

/// Where two value trees unfold into `m` and `n` fragments and every other
/// into at most one, the document has `m * n` rows.
pub proof fn lemma_two_arrays_give_product(flat: bool, trees: Seq<ValueModel>, k: int, l: int)
    requires
        0 <= k < l < trees.len(),
        forall|j: int|
            0 <= j < trees.len() && j != k && j != l ==> rows_of(
                flat,
                Seq::empty(),
                #[trigger] trees[j],
            ).len() <= 1,
        rows_of(flat, Seq::empty(), trees[k]).len() > 0,
        rows_of(flat, Seq::empty(), trees[l]).len() > 0,
    ensures
        tuples_of(flat, trees).len() == rows_of(flat, Seq::empty(), trees[k]).len() * rows_of(
            flat,
            Seq::empty(),
            trees[l],
        ).len(),
{
    let groups = groups_of(flat, Seq::empty(), trees);
    assert forall|j: int| 0 <= j < groups.len() && j != k && j != l implies (
    #[trigger] groups[j]).len() <= 1 by {
        assert(groups[j] == rows_of(flat, Seq::empty(), trees[j]));
    }
    assert(groups[k] == rows_of(flat, Seq::empty(), trees[k]));
    assert(groups[l] == rows_of(flat, Seq::empty(), trees[l]));
    lemma_two_large_groups(groups, k, l);
}

} // verus!
