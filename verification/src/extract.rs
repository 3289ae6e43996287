//! Extraction: the values of one document, laid out as the schema is.
use vstd::prelude::*;
use crate::json::{Field, Json, JsonValue, values_view};
use crate::path::{JsonPathElement, PathElem};
use crate::schema::{JsonSchema, JsonSchemaTree, SchemaModel, forest_view, lemma_view_node};

verus! {

/// The model of a value tree.
pub enum ValueModel {
    /// A field whose value was taken apart further.
    Root(PathElem, Seq<ValueModel>),
    /// A field that holds one value.
    Single(PathElem, Json),
    /// An array kept as its elements.
    Array(Seq<Json>),
    /// An array whose elements were each taken apart.
    Trees(Seq<Seq<ValueModel>>),
}

/// What extraction found in a document for one schema tree.
#[derive(Debug)]
pub enum JsonValueTree {
    ValueRoot(JsonPathElement, Vec<JsonValueTree>),
    SingleValue(JsonPathElement, JsonValue),
    ValueArray(Vec<JsonValue>),
    TreeArray(Vec<Vec<JsonValueTree>>),
}

/// What a whole schema finds in one document.
pub type JsonTree = Vec<JsonValueTree>;

impl View for JsonValueTree {
    type V = ValueModel;

    open spec fn view(&self) -> ValueModel
        decreases self,
    {
        match self {
            JsonValueTree::ValueRoot(el, children) => ValueModel::Root(
                el@,
                Seq::new(
                    children@.len(),
                    |i: int|
                        if 0 <= i < children@.len() {
                            children@[i]@
                        } else {
                            ValueModel::Array(Seq::empty())
                        },
                ),
            ),
            JsonValueTree::SingleValue(el, value) => ValueModel::Single(el@, value@),
            JsonValueTree::ValueArray(values) => ValueModel::Array(values_view(values@)),
            JsonValueTree::TreeArray(trees) => ValueModel::Trees(
                Seq::new(
                    trees@.len(),
                    |i: int|
                        if 0 <= i < trees@.len() {
                            Seq::new(
                                trees@[i]@.len(),
                                |j: int|
                                    if 0 <= j < trees@[i]@.len() {
                                        trees@[i]@[j]@
                                    } else {
                                        ValueModel::Array(Seq::empty())
                                    },
                            )
                        } else {
                            Seq::empty()
                        },
                ),
            ),
        }
    }
}

/// The models of a list of value trees, in order.
pub open spec fn trees_view(trees: Seq<JsonValueTree>) -> Seq<ValueModel> {
    Seq::new(trees.len(), |i: int| trees[i]@)
}

/// The models of the lists of value trees of an array's elements.
pub open spec fn tree_lists_view(lists: Seq<Vec<JsonValueTree>>) -> Seq<Seq<ValueModel>> {
    Seq::new(lists.len(), |i: int| trees_view(lists[i]@))
}

/// The model of a root is the root of the models of its children.
pub proof fn lemma_view_root(el: JsonPathElement, children: Vec<JsonValueTree>)
    ensures
        JsonValueTree::ValueRoot(el, children)@ == ValueModel::Root(el@, trees_view(children@)),
{
    assert(JsonValueTree::ValueRoot(el, children)@->Root_1 =~= trees_view(children@));
}

/// The model of an array of trees holds the models of each element's
/// trees.
pub proof fn lemma_view_tree_array(trees: Vec<Vec<JsonValueTree>>)
    ensures
        JsonValueTree::TreeArray(trees)@ == ValueModel::Trees(tree_lists_view(trees@)),
{
    let a = JsonValueTree::TreeArray(trees)@->Trees_0;
    let b = tree_lists_view(trees@);
    assert(a.len() == b.len());
    assert forall|i: int| 0 <= i < a.len() implies a[i] == b[i] by {
        assert(a[i] =~= b[i]);
    }
    assert(a =~= b);
}

/// Whether the children of a schema node say that the path ends there.
pub open spec fn ends_here(children: Seq<SchemaModel>) -> bool {
    children.len() == 1 && children[0] is End
}

/// What one schema tree finds in a value.
///
/// A key node looks its field up: missing, it finds nothing; with the end
/// mark as its only child it finds the field's value; else it finds what
/// its children find in that value. An array node finds nothing in a value
/// that is no array; with the end mark as its only child it finds the
/// elements as they are; else, for each element, what its children find
/// there.
pub open spec fn extracted(value: Json, t: SchemaModel) -> Option<ValueModel>
    decreases t, 0int,
{
    match t {
        SchemaModel::End => None,
        SchemaModel::Node(PathElem::Key(k), children) => match value.field(k) {
            None => None,
            Some(v) => if ends_here(children) {
                Some(ValueModel::Single(PathElem::Key(k), v))
            } else {
                Some(ValueModel::Root(PathElem::Key(k), extracted_all(v, children, children.len())))
            },
        },
        SchemaModel::Node(PathElem::Iterator, children) => match value.elements() {
            None => None,
            Some(items) => if ends_here(children) {
                Some(ValueModel::Array(items))
            } else {
                Some(
                    ValueModel::Trees(
                        Seq::new(
                            items.len(),
                            |i: int| extracted_all(items[i], children, children.len()),
                        ),
                    ),
                )
            },
        },
    }
}

/// What the first `n` trees of a forest find in a value, in the order of
/// the forest; a tree that finds nothing adds nothing.
pub open spec fn extracted_all(value: Json, forest: Seq<SchemaModel>, n: nat) -> Seq<ValueModel>
    decreases forest, n,
{
    if n == 0 || n > forest.len() {
        Seq::empty()
    } else {
        let front = extracted_all(value, forest, (n - 1) as nat);
        match extracted(value, forest[n - 1]) {
            None => front,
            Some(found) => front.push(found),
        }
    }
}

/// What one schema tree finds in a value.
#[verifier::loop_isolation(false)]
pub fn extract_tree(value: &JsonValue, schema_tree: &JsonSchemaTree) -> (r: Option<JsonValueTree>)
    ensures
        r is Some == extracted(value@, schema_tree@) is Some,
        r matches Some(t) ==> extracted(value@, schema_tree@) == Some(t@),
    decreases schema_tree, 1int,
{
    match schema_tree {
        JsonSchemaTree::PathEnd => None,
        JsonSchemaTree::PathNode(el, children) => {
            proof {
                lemma_view_node(*el, *children);
            }
            let at_end = children.len() == 1 && match &children[0] {
                JsonSchemaTree::PathEnd => true,
                _ => false,
            };
            assert(at_end == ends_here(forest_view(children@)));
            match el {
                JsonPathElement::Key(k) => match value.get(k) {
                    None => None,
                    Some(v) => {
                        if at_end {
                            Some(
                                JsonValueTree::SingleValue(
                                    JsonPathElement::Key(k.clone()),
                                    v.duplicate(),
                                ),
                            )
                        } else {
                            let found = extract_children(v, schema_tree, children);
                            let key = JsonPathElement::Key(k.clone());
                            proof {
                                lemma_view_root(key, found);
                            }
                            Some(JsonValueTree::ValueRoot(key, found))
                        }
                    },
                },
                JsonPathElement::Iterator => match value.as_array() {
                    None => None,
                    Some(items) => {
                        if at_end {
                            let mut copy: Vec<JsonValue> = Vec::new();
                            let mut i: usize = 0;
                            while i < items.len()
                                invariant
                                    i <= items.len(),
                                    copy@.len() == i,
                                    forall|j: int| 0 <= j < i ==> copy@[j]@ == items@[j]@,
                                decreases items.len() - i,
                            {
                                copy.push(items[i].duplicate());
                                i += 1;
                            }
                            assert(values_view(copy@) =~= values_view(items@));
                            Some(JsonValueTree::ValueArray(copy))
                        } else {
                            let mut lists: Vec<Vec<JsonValueTree>> = Vec::new();
                            let mut i: usize = 0;
                            let ghost forest = forest_view(children@);
                            while i < items.len()
                                invariant
                                    i <= items.len(),
                                    lists@.len() == i,
                                    forall|j: int|
                                        0 <= j < i ==> trees_view(#[trigger] lists@[j]@)
                                            == extracted_all(items@[j]@, forest, forest.len()),
                                decreases items.len() - i,
                            {
                                lists.push(extract_children(&items[i], schema_tree, children));
                                i += 1;
                            }
                            proof {
                                lemma_view_tree_array(lists);
                                let want = extracted(value@, schema_tree@);
                                assert(want is Some && want->0 is Trees);
                                assert(want->0->Trees_0 =~= tree_lists_view(lists@));
                            }
                            Some(JsonValueTree::TreeArray(lists))
                        }
                    },
                },
            }
        },
    }
}

/// What the children of a schema node find in a value.
#[verifier::loop_isolation(false)]
fn extract_children(value: &JsonValue, parent: &JsonSchemaTree, children: &Vec<JsonSchemaTree>) -> (r:
    Vec<JsonValueTree>)
    requires
        parent matches JsonSchemaTree::PathNode(_, ch) && ch == children,
    ensures
        trees_view(r@) == extracted_all(value@, forest_view(children@), children@.len() as nat),
    decreases parent, 0int,
{
    let ghost forest = forest_view(children@);
    let mut out: Vec<JsonValueTree> = Vec::new();
    let mut i: usize = 0;
    assert(trees_view(out@) =~= Seq::empty());
    while i < children.len()
        invariant
            i <= children.len(),
            trees_view(out@) == extracted_all(value@, forest, i as nat),
        decreases children.len() - i,
    {
        assert(decreases_to!(parent => children@[i as int]));
        assert(forest[i as int] == children@[i as int]@);
        let ghost before = trees_view(out@);
        match extract_tree(value, &children[i]) {
            None => {},
            Some(t) => {
                out.push(t);
                assert(trees_view(out@) =~= before.push(t@));
            },
        }
        i += 1;
    }
    out
}

/// What a schema finds in a document: for each of its trees that finds
/// anything, in the order of the schema, what it finds.
pub fn extract(schema: &JsonSchema, value: JsonValue) -> (r: JsonTree)
    ensures
        trees_view(r@) == extracted_all(value@, forest_view(schema@), schema@.len() as nat),
{
    let ghost forest = forest_view(schema@);
    let mut out: Vec<JsonValueTree> = Vec::new();
    let mut i: usize = 0;
    assert(trees_view(out@) =~= Seq::empty());
    while i < schema.len()
        invariant
            i <= schema.len(),
            forest == forest_view(schema@),
            trees_view(out@) == extracted_all(value@, forest, i as nat),
        decreases schema.len() - i,
    {
        assert(forest[i as int] == schema@[i as int]@);
        let ghost before = trees_view(out@);
        match extract_tree(&value, &schema[i]) {
            None => {},
            Some(t) => {
                out.push(t);
                assert(trees_view(out@) =~= before.push(t@));
            },
        }
        i += 1;
    }
    out
}

/// Whether a value holds no array at any depth.
pub open spec fn array_free(value: Json) -> bool
    decreases value,
{
    match value {
        Json::Array(_) => false,
        Json::Object(fields) => forall|i: int|
            0 <= i < fields.len() ==> array_free((#[trigger] fields[i]).value),
        _ => true,
    }
}

/// Whether an extracted tree holds no array.
pub open spec fn array_less(t: ValueModel) -> bool
    decreases t,
{
    match t {
        ValueModel::Root(_, children) => forall|i: int|
            0 <= i < children.len() ==> array_less(#[trigger] children[i]),
        ValueModel::Single(_, _) => true,
        ValueModel::Array(_) => false,
        ValueModel::Trees(_) => false,
    }
}

/// A field found among fields that hold no array holds no array.
pub proof fn lemma_lookup_array_free(fields: Seq<Field>, key: Seq<char>)
    requires
        forall|i: int| 0 <= i < fields.len() ==> array_free((#[trigger] fields[i]).value),
    ensures
        Json::lookup(fields, key) matches Some(v) ==> array_free(v),
    decreases fields.len(),
{
    if fields.len() > 0 && fields[0].name != key {
        assert forall|i: int| 0 <= i < fields.skip(1).len() implies array_free(
            (#[trigger] fields.skip(1)[i]).value,
        ) by {
            assert(fields.skip(1)[i] == fields[i + 1]);
        }
        lemma_lookup_array_free(fields.skip(1), key);
    }
}

/// What a schema tree finds in a value without arrays holds no array.
pub proof fn lemma_extracted_array_less(value: Json, t: SchemaModel)
    requires
        array_free(value),
    ensures
        extracted(value, t) matches Some(found) ==> array_less(found),
    decreases t, 0int,
{
    match t {
        SchemaModel::Node(PathElem::Key(k), children) => {
            match value {
                Json::Object(fields) => {
                    lemma_lookup_array_free(fields, k);
                    match value.field(k) {
                        Some(v) => {
                            assert(array_free(v));
                            if !ends_here(children) {
                                lemma_extracted_all_array_less(v, children, children.len());
                                let found = extracted_all(v, children, children.len());
                                assert(extracted(value, t) == Some(
                                    ValueModel::Root(PathElem::Key(k), found),
                                ));
                                assert(array_less(ValueModel::Root(PathElem::Key(k), found)));
                            } else {
                                assert(extracted(value, t) == Some(
                                    ValueModel::Single(PathElem::Key(k), v),
                                ));
                            }
                        },
                        None => {},
                    }
                },
                _ => {},
            }
        },
        _ => {},
    }
}

/// What a forest finds in a value without arrays holds no array.
pub proof fn lemma_extracted_all_array_less(value: Json, forest: Seq<SchemaModel>, n: nat)
    requires
        array_free(value),
        n <= forest.len(),
    ensures
        forall|i: int|
            0 <= i < extracted_all(value, forest, n).len() ==> array_less(
                #[trigger] extracted_all(value, forest, n)[i],
            ),
    decreases forest, n,
{
    if n > 0 {
        lemma_extracted_all_array_less(value, forest, (n - 1) as nat);
        lemma_extracted_array_less(value, forest[n - 1]);
        let front = extracted_all(value, forest, (n - 1) as nat);
        let all = extracted_all(value, forest, n);
        assert forall|i: int| 0 <= i < all.len() implies array_less(#[trigger] all[i]) by {
            if i < front.len() {
                assert(all[i] == front[i]);
            }
        }
    }
}

} // verus!
