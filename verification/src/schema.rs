//! The schema: a forest of path trees compiled from the header paths.
use vstd::prelude::*;
use vstd::std_specs::cmp::PartialEqSpec;
use crate::path::{JsonPath, JsonPathElement, Path, PathElem, path_view, paths_view};
use crate::utils::{dedup_seq, dedup_vec, occurs};

verus! {

/// The model of a schema tree.
pub enum SchemaModel {
    Node(PathElem, Seq<SchemaModel>),
    End,
}

/// A node labelled by a path step, with its children in order, or the mark
/// that a path ends here.
#[derive(Debug)]
pub enum JsonSchemaTree {
    PathNode(JsonPathElement, Vec<JsonSchemaTree>),
    PathEnd,
}

/// A schema: a forest of path trees.
pub type JsonSchema = Vec<JsonSchemaTree>;

impl View for JsonSchemaTree {
    type V = SchemaModel;

    open spec fn view(&self) -> SchemaModel
        decreases self,
    {
        match self {
            JsonSchemaTree::PathNode(el, children) => SchemaModel::Node(
                el@,
                Seq::new(
                    children@.len(),
                    |i: int|
                        if 0 <= i < children@.len() {
                            children@[i]@
                        } else {
                            SchemaModel::End
                        },
                ),
            ),
            JsonSchemaTree::PathEnd => SchemaModel::End,
        }
    }
}

/// The models of a forest, in order.
pub open spec fn forest_view(forest: Seq<JsonSchemaTree>) -> Seq<SchemaModel> {
    Seq::new(forest.len(), |i: int| forest[i]@)
}

/// The model of a node holds the models of its children.
pub proof fn lemma_view_node(el: JsonPathElement, children: Vec<JsonSchemaTree>)
    ensures
        JsonSchemaTree::PathNode(el, children)@ == SchemaModel::Node(el@, forest_view(children@)),
{
    assert(JsonSchemaTree::PathNode(el, children)@->Node_1 =~= forest_view(children@));
}

/// The chain of a path: each step the only child of the one before, closed
/// by the end mark.
pub open spec fn chain(p: Path) -> SchemaModel
    decreases p.len(),
{
    if p.len() == 0 {
        SchemaModel::End
    } else {
        SchemaModel::Node(p[0], seq![chain(p.skip(1))])
    }
}

/// Whether a tree is a node labelled by the first step of a path.
pub open spec fn same_root(t: SchemaModel, p: Path) -> bool {
    t matches SchemaModel::Node(el, _) && p.len() > 0 && el == p[0]
}

/// Whether some tree of a forest is labelled by the first step of a path.
pub open spec fn has_root(forest: Seq<SchemaModel>, p: Path) -> bool {
    exists|i: int| 0 <= i < forest.len() && same_root(#[trigger] forest[i], p)
}

/// A sequence of trees without those that equal an earlier one.
pub open spec fn distinct(s: Seq<SchemaModel>) -> Seq<SchemaModel>
    decreases s.len(),
{
    if s.len() == 0 {
        Seq::empty()
    } else {
        let front = distinct(s.drop_last());
        if front.contains(s.last()) {
            front
        } else {
            front.push(s.last())
        }
    }
}

/// A tree after a path has been merged into it.
///
/// The empty path changes nothing. The end mark becomes the chain of the
/// path. A node with another label stays. A node labelled by the first step
/// takes the rest of the path among its children: alone where it had none,
/// else merged into them, equal children then counted once. Where the path
/// ends at the node and the end mark is among its children already, the
/// node stays as it is.
pub open spec fn merged(t: SchemaModel, p: Path) -> SchemaModel
    decreases p.len(), 0int,
{
    if p.len() == 0 {
        t
    } else {
        match t {
            SchemaModel::End => chain(p),
            SchemaModel::Node(el, children) => if el != p[0] {
                t
            } else if children.len() == 0 {
                SchemaModel::Node(el, seq![chain(p.skip(1))])
            } else if p.len() == 1 && children.contains(SchemaModel::End) {
                t
            } else {
                SchemaModel::Node(el, distinct(appended(children, p.skip(1))))
            },
        }
    }
}

/// A forest after a path has been added to it.
///
/// Where no tree is labelled by the first step of the path, the chain of
/// the path becomes the new first tree. Else the path is merged into every
/// tree so labelled, and the others stay.
pub open spec fn appended(forest: Seq<SchemaModel>, p: Path) -> Seq<SchemaModel>
    decreases p.len(), 1int,
{
    if has_root(forest, p) {
        Seq::new(
            forest.len(),
            |i: int|
                if 0 <= i < forest.len() && same_root(forest[i], p) {
                    merged(forest[i], p)
                } else {
                    forest[i]
                },
        )
    } else {
        seq![chain(p)] + forest
    }
}

/// The forest compiled from a list of paths, added one by one from the
/// first.
pub open spec fn compiled(paths: Seq<Path>) -> Seq<SchemaModel>
    decreases paths.len(),
{
    if paths.len() == 0 {
        Seq::empty()
    } else {
        appended(compiled(paths.drop_last()), paths.last())
    }
}

/// The path after its first step, empty for the empty path.
pub fn tail_of(path: &JsonPath) -> (r: JsonPath)
    ensures
        path@.len() > 0 ==> path_view(r@) == path_view(path@).skip(1),
        path@.len() == 0 ==> r@.len() == 0,
        path@.len() > 0 ==> r@.len() == path@.len() - 1,
{
    let mut out: JsonPath = Vec::new();
    let mut i: usize = 1;
    while i < path.len()
        invariant
            1 <= i,
            i <= path.len() || path.len() == 0,
            path.len() > 0 ==> out@.len() == i - 1,
            path.len() == 0 ==> out@.len() == 0,
            forall|j: int| 0 <= j < out@.len() ==> out@[j]@ == path@[j + 1]@,
        decreases path.len() - i,
    {
        out.push(path[i].duplicate());
        i += 1;
    }
    proof {
        if path@.len() > 0 {
            assert(path_view(out@) =~= path_view(path@).skip(1));
        }
    }
    out
}

/// Whether the end mark is among the trees of a forest.
pub fn has_end(forest: &Vec<JsonSchemaTree>) -> (r: bool)
    ensures
        r == forest_view(forest@).contains(SchemaModel::End),
{
    let mut i: usize = 0;
    while i < forest.len()
        invariant
            i <= forest.len(),
            forall|j: int| 0 <= j < i ==> forest_view(forest@)[j] != SchemaModel::End,
        decreases forest.len() - i,
    {
        match &forest[i] {
            JsonSchemaTree::PathEnd => {
                assert(forest_view(forest@)[i as int] == SchemaModel::End);
                return true;
            },
            JsonSchemaTree::PathNode(el, children) => {
                proof {
                    lemma_view_node(*el, *children);
                }
            },
        }
        i += 1;
    }
    false
}

/// The chain of a path.
pub fn to_schema_tree(path: JsonPath) -> (r: JsonSchemaTree)
    ensures
        r@ == chain(path_view(path@)),
{
    let mut tree = JsonSchemaTree::PathEnd;
    let mut i: usize = path.len();
    let ghost p = path_view(path@);
    assert(p.skip(i as int) =~= Seq::empty());
    while i > 0
        invariant
            i <= path.len(),
            p == path_view(path@),
            tree@ == chain(p.skip(i as int)),
        decreases i,
    {
        i -= 1;
        let mut children: Vec<JsonSchemaTree> = Vec::new();
        let ghost below = tree@;
        children.push(tree);
        let el = path[i].duplicate();
        proof {
            lemma_view_node(el, children);
            assert(forest_view(children@) =~= seq![below]);
            assert(p.skip(i as int).skip(1) =~= p.skip(i + 1));
            assert(p.skip(i as int)[0] == el@);
        }
        tree = JsonSchemaTree::PathNode(el, children);
    }
    assert(p.skip(0) =~= p);
    tree
}

/// De-duplicating trees by `==` de-duplicates their models.
pub proof fn lemma_dedup_view(s: Seq<JsonSchemaTree>)
    ensures
        forest_view(dedup_seq(s)) == distinct(forest_view(s)),
    decreases s.len(),
{
    if s.len() == 0 {
        assert(forest_view(dedup_seq(s)) =~= distinct(forest_view(s)));
    } else {
        lemma_dedup_view(s.drop_last());
        let front = dedup_seq(s.drop_last());
        let mfront = distinct(forest_view(s.drop_last()));
        assert(forest_view(s).drop_last() =~= forest_view(s.drop_last()));
        assert(forest_view(s).last() == s.last()@);
        if occurs(front, s.last()) {
            let j = choose|j: int| 0 <= j < front.len() && #[trigger] front[j].eq_spec(&s.last());
            assert(mfront[j] == s.last()@);
        }
        if mfront.contains(s.last()@) {
            let j = choose|j: int| 0 <= j < mfront.len() && mfront[j] == s.last()@;
            assert(front[j].eq_spec(&s.last()));
        }
        assert(forest_view(dedup_seq(s)) =~= distinct(forest_view(s)));
    }
}

impl JsonSchemaTree {
    /// Whether two trees are the same tree.
    #[verifier::loop_isolation(false)]
    pub fn same(&self, other: &JsonSchemaTree) -> (r: bool)
        ensures
            r == (self@ == other@),
        decreases self,
    {
        match (self, other) {
            (JsonSchemaTree::PathEnd, JsonSchemaTree::PathEnd) => true,
            (JsonSchemaTree::PathNode(a, xs), JsonSchemaTree::PathNode(b, ys)) => {
                proof {
                    lemma_view_node(*a, *xs);
                    lemma_view_node(*b, *ys);
                }
                if !a.same(b) {
                    return false;
                }
                if xs.len() != ys.len() {
                    assert(forest_view(xs@).len() != forest_view(ys@).len());
                    return false;
                }
                let mut i: usize = 0;
                while i < xs.len()
                    invariant
                        i <= xs.len(),
                        forall|j: int| 0 <= j < i ==> xs@[j]@ == ys@[j]@,
                    decreases xs.len() - i,
                {
                    assert(decreases_to!(self => xs@[i as int]));
                    if !xs[i].same(&ys[i]) {
                        assert(forest_view(xs@)[i as int] != forest_view(ys@)[i as int]);
                        return false;
                    }
                    i += 1;
                }
                assert(forest_view(xs@) =~= forest_view(ys@));
                true
            },
            _ => false,
        }
    }

    /// A copy of the tree.
    #[verifier::loop_isolation(false)]
    pub fn duplicate(&self) -> (r: JsonSchemaTree)
        ensures
            r@ == self@,
        decreases self,
    {
        match self {
            JsonSchemaTree::PathEnd => JsonSchemaTree::PathEnd,
            JsonSchemaTree::PathNode(el, children) => {
                let mut out: Vec<JsonSchemaTree> = Vec::new();
                let mut i: usize = 0;
                while i < children.len()
                    invariant
                        i <= children.len(),
                        out@.len() == i,
                        forall|j: int| 0 <= j < i ==> out@[j]@ == children@[j]@,
                    decreases children.len() - i,
                {
                    assert(decreases_to!(self => children@[i as int]));
                    out.push(children[i].duplicate());
                    i += 1;
                }
                let el2 = el.duplicate();
                proof {
                    lemma_view_node(*el, *children);
                    lemma_view_node(el2, out);
                    assert(forest_view(out@) =~= forest_view(children@));
                }
                JsonSchemaTree::PathNode(el2, out)
            },
        }
    }

    /// Whether the tree is a node labelled by the first step of `path`.
    pub fn has_same_root(&self, path: &JsonPath) -> (r: bool)
        ensures
            r == same_root(self@, path_view(path@)),
    {
        match self {
            JsonSchemaTree::PathNode(el, children) => {
                proof {
                    lemma_view_node(*el, *children);
                }
                if path.len() > 0 {
                    el.same(&path[0])
                } else {
                    false
                }
            },
            JsonSchemaTree::PathEnd => false,
        }
    }

    /// Merges a path into the tree.
    pub fn add_path(self, path: &JsonPath) -> (r: JsonSchemaTree)
        ensures
            r@ == merged(self@, path_view(path@)),
            well_formed(self@) ==> well_formed(r@),
        decreases path@.len(), 0int,
    {
        proof {
            if well_formed(self@) {
                lemma_merged_well_formed(self@, path_view(path@));
            }
        }
        if path.len() == 0 {
            return self;
        }
        let ghost p = path_view(path@);
        match self {
            JsonSchemaTree::PathEnd => to_schema_tree(crate::path::copy_path(path)),
            JsonSchemaTree::PathNode(el, children) => {
                proof {
                    lemma_view_node(el, children);
                }
                if !el.same(&path[0]) {
                    JsonSchemaTree::PathNode(el, children)
                } else if children.len() == 0 {
                    let mut only: Vec<JsonSchemaTree> = Vec::new();
                    only.push(to_schema_tree(tail_of(path)));
                    proof {
                        lemma_view_node(el, only);
                        assert(forest_view(only@) =~= seq![chain(p.skip(1))]);
                    }
                    JsonSchemaTree::PathNode(el, only)
                } else if path.len() == 1 && has_end(&children) {
                    JsonSchemaTree::PathNode(el, children)
                } else {
                    let tail = tail_of(path);
                    let grown = append_path(children, &tail);
                    let unique = dedup_vec(grown);
                    proof {
                        lemma_dedup_view(grown@);
                        lemma_view_node(el, unique);
                    }
                    JsonSchemaTree::PathNode(el, unique)
                }
            },
        }
    }
}

impl PartialEq for JsonSchemaTree {
    fn eq(&self, other: &JsonSchemaTree) -> (r: bool) {
        self.same(other)
    }
}

impl vstd::std_specs::cmp::PartialEqSpecImpl for JsonSchemaTree {
    open spec fn obeys_eq_spec() -> bool {
        true
    }

    open spec fn eq_spec(&self, other: &JsonSchemaTree) -> bool {
        self@ == other@
    }
}

/// Adds a path to a forest.
pub fn append_path(schema: JsonSchema, path: &JsonPath) -> (r: JsonSchema)
    ensures
        forest_view(r@) == appended(forest_view(schema@), path_view(path@)),
        forest_well_formed(forest_view(schema@)) ==> forest_well_formed(forest_view(r@)),
    decreases path@.len(), 1int,
{
    proof {
        if forest_well_formed(forest_view(schema@)) {
            lemma_appended_well_formed(forest_view(schema@), path_view(path@));
        }
    }
    let ghost forest = forest_view(schema@);
    let ghost p = path_view(path@);
    let mut found = false;
    let mut i: usize = 0;
    while i < schema.len() && !found
        invariant
            i <= schema.len(),
            forest == forest_view(schema@),
            p == path_view(path@),
            found <==> exists|j: int| 0 <= j < i && same_root(#[trigger] forest[j], p),
        decreases schema.len() - i + (if found { 0int } else { 1int }),
    {
        if schema[i].has_same_root(path) {
            assert(same_root(forest[i as int], p));
            found = true;
        }
        i += 1;
    }
    let mut schema = schema;
    if found {
        assert(has_root(forest, p));
        let mut out: JsonSchema = Vec::new();
        let ghost mut done: int = 0;
        while schema.len() > 0
            invariant
                0 <= done,
                done + schema@.len() == forest.len(),
                p == path_view(path@),
                forest_view(schema@) == forest.skip(done),
                out@.len() == done,
                forall|j: int|
                    0 <= j < done ==> out@[j]@ == (if same_root(forest[j], p) {
                        merged(forest[j], p)
                    } else {
                        forest[j]
                    }),
            decreases schema@.len(),
        {
            let ghost before = schema@;
            let tr = schema.remove(0);
            proof {
                assert(tr@ == forest_view(before)[0]);
                assert(forest.skip(done)[0] == forest[done]);
                assert forall|j: int| 0 <= j < schema@.len() implies forest_view(schema@)[j]
                    == forest.skip(done + 1)[j] by {
                    assert(schema@[j] == before[j + 1]);
                    assert(forest_view(before)[j + 1] == forest.skip(done)[j + 1]);
                }
                assert(forest_view(schema@) =~= forest.skip(done + 1));
                done = done + 1;
            }
            if tr.has_same_root(path) {
                out.push(tr.add_path(path));
            } else {
                out.push(tr);
            }
        }
        assert(forest_view(out@) =~= appended(forest, p));
        out
    } else {
        assert(!has_root(forest, p));
        let first = to_schema_tree(crate::path::copy_path(path));
        schema.insert(0, first);
        assert(forest_view(schema@) =~= seq![chain(p)] + forest);
        schema
    }
}

/// Compiles a list of paths into a schema.
pub fn to_schema(paths: Vec<JsonPath>) -> (r: JsonSchema)
    ensures
        forest_view(r@) == compiled(paths_view(paths@)),
        forest_well_formed(forest_view(r@)),
{
    proof {
        lemma_compiled_well_formed(paths_view(paths@));
    }
    let mut schema: JsonSchema = Vec::new();
    let mut i: usize = 0;
    assert(paths_view(paths@).take(0) =~= Seq::empty());
    assert(forest_view(schema@) =~= Seq::empty());
    while i < paths.len()
        invariant
            i <= paths.len(),
            forest_view(schema@) == compiled(paths_view(paths@).take(i as int)),
        decreases paths.len() - i,
    {
        proof {
            let all = paths_view(paths@);
            assert(all.take(i + 1).drop_last() =~= all.take(i as int));
            assert(all.take(i + 1).last() == path_view(paths@[i as int]@));
        }
        schema = append_path(schema, &paths[i]);
        i += 1;
    }
    assert(paths_view(paths@).take(i as int) =~= paths_view(paths@));
    schema
}

/// Whether no two nodes of a forest carry the same label.
pub open spec fn labels_differ(forest: Seq<SchemaModel>) -> bool {
    forall|i: int, j: int|
        0 <= i < j < forest.len() && (#[trigger] forest[i]) is Node && (#[trigger] forest[j]) is Node
            ==> forest[i]->Node_0 != forest[j]->Node_0
}

/// Whether, at every level of a tree, no two children carry the same
/// label and no child stands there twice.
pub open spec fn well_formed(t: SchemaModel) -> bool
    decreases t,
{
    match t {
        SchemaModel::End => true,
        SchemaModel::Node(_, children) => labels_differ(children) && children.no_duplicates()
            && forall|i: int| 0 <= i < children.len() ==> well_formed(#[trigger] children[i]),
    }
}

/// Whether no two trees of a forest carry the same label, at every level.
pub open spec fn forest_well_formed(forest: Seq<SchemaModel>) -> bool {
    labels_differ(forest) && forall|i: int|
        0 <= i < forest.len() ==> well_formed(#[trigger] forest[i])
}

/// The chain of a path is well formed.
pub proof fn lemma_chain_well_formed(p: Path)
    ensures
        well_formed(chain(p)),
    decreases p.len(),
{
    if p.len() > 0 {
        lemma_chain_well_formed(p.skip(1));
    }
}

/// De-duplication keeps only trees that were there, and keeps a forest
/// well formed.
pub proof fn lemma_distinct_well_formed(s: Seq<SchemaModel>)
    requires
        forest_well_formed(s),
    ensures
        forest_well_formed(distinct(s)),
        forall|x: SchemaModel| distinct(s).contains(x) <==> s.contains(x),
        distinct(s).no_duplicates(),
    decreases s.len(),
{
    if s.len() > 0 {
        let front = s.drop_last();
        let d = distinct(front);
        let last = s.last();
        assert forall|i: int| 0 <= i < front.len() implies well_formed(#[trigger] front[i]) by {
            assert(front[i] == s[i]);
        }
        assert forall|i: int, j: int|
            0 <= i < j < front.len() && (#[trigger] front[i]) is Node && (
            #[trigger] front[j]) is Node implies front[i]->Node_0 != front[j]->Node_0 by {
            assert(front[i] == s[i] && front[j] == s[j]);
        }
        lemma_distinct_well_formed(front);
        let out = distinct(s);
        assert forall|x: SchemaModel| out.contains(x) <==> s.contains(x) by {
            assert(d.contains(x) <==> front.contains(x));
            if s.contains(x) {
                let k = choose|k: int| 0 <= k < s.len() && s[k] == x;
                if k < front.len() {
                    assert(front[k] == x);
                }
            }
            if front.contains(x) {
                let k = choose|k: int| 0 <= k < front.len() && front[k] == x;
                assert(s[k] == x);
            }
            if d.contains(x) {
                let k = choose|k: int| 0 <= k < d.len() && d[k] == x;
                assert(out[k] == x);
            }
            if out.contains(x) {
                let k = choose|k: int| 0 <= k < out.len() && out[k] == x;
                if k < d.len() {
                    assert(d[k] == x);
                } else {
                    assert(x == last);
                }
            }
            if x == last {
                assert(s[s.len() - 1] == x);
                if !d.contains(last) {
                    assert(out[d.len() as int] == x);
                }
            }
        }
        if !d.contains(last) {
            assert forall|i: int| 0 <= i < out.len() implies well_formed(#[trigger] out[i]) by {
                if i < d.len() {
                    assert(out[i] == d[i]);
                } else {
                    assert(out[i] == s[s.len() - 1]);
                }
            }
            assert forall|i: int, j: int|
                0 <= i < j < out.len() && (#[trigger] out[i]) is Node && (
                #[trigger] out[j]) is Node implies out[i]->Node_0 != out[j]->Node_0 by {
                if j < d.len() {
                    assert(out[i] == d[i] && out[j] == d[j]);
                } else {
                    assert(out[i] == d[i]);
                    assert(d.contains(d[i]));
                    assert(front.contains(d[i]));
                    let k = choose|k: int| 0 <= k < front.len() && front[k] == d[i];
                    assert(s[k] == d[i]);
                    assert(s[s.len() - 1] == out[j]);
                }
            }
            assert forall|i: int, j: int| 0 <= i < out.len() && 0 <= j < out.len() && i != j implies out[i]
                != out[j] by {
                if i < d.len() && j < d.len() {
                    assert(out[i] == d[i] && out[j] == d[j]);
                } else if i < d.len() {
                    assert(out[i] == d[i]);
                    assert(d.contains(out[i]));
                } else if j < d.len() {
                    assert(out[j] == d[j]);
                    assert(d.contains(out[j]));
                }
            }
        }
    }
}

/// Merging a path into a well-formed tree leaves it well formed, and a
/// node keeps its label.
pub proof fn lemma_merged_well_formed(t: SchemaModel, p: Path)
    requires
        well_formed(t),
    ensures
        well_formed(merged(t, p)),
        t is Node ==> merged(t, p) is Node && merged(t, p)->Node_0 == t->Node_0,
    decreases p.len(), 0int,
{
    if p.len() > 0 {
        match t {
            SchemaModel::End => {
                lemma_chain_well_formed(p);
            },
            SchemaModel::Node(el, children) => {
                if el == p[0] {
                    if children.len() == 0 {
                        lemma_chain_well_formed(p.skip(1));
                    } else if p.len() == 1 && children.contains(SchemaModel::End) {
                    } else {
                        lemma_appended_well_formed(children, p.skip(1));
                        lemma_distinct_well_formed(appended(children, p.skip(1)));
                    }
                }
            },
        }
    }
}

/// Adding a path to a well-formed forest leaves it well formed.
pub proof fn lemma_appended_well_formed(forest: Seq<SchemaModel>, p: Path)
    requires
        forest_well_formed(forest),
    ensures
        forest_well_formed(appended(forest, p)),
    decreases p.len(), 1int,
{
    let out = appended(forest, p);
    if has_root(forest, p) {
        assert forall|i: int| 0 <= i < out.len() implies well_formed(#[trigger] out[i]) && (
        forest[i] is Node ==> out[i] is Node && out[i]->Node_0 == forest[i]->Node_0) && (
        forest[i] is End ==> out[i] is End) by {
            assert(well_formed(forest[i]));
            if same_root(forest[i], p) {
                lemma_merged_well_formed(forest[i], p);
            }
        }
        assert forall|i: int, j: int|
            0 <= i < j < out.len() && (#[trigger] out[i]) is Node && (
            #[trigger] out[j]) is Node implies out[i]->Node_0 != out[j]->Node_0 by {
            assert(forest[i] is Node && forest[j] is Node);
        }
    } else {
        lemma_chain_well_formed(p);
        assert forall|i: int| 0 <= i < out.len() implies well_formed(#[trigger] out[i]) by {
            if i > 0 {
                assert(out[i] == forest[i - 1]);
            }
        }
        assert forall|i: int, j: int|
            0 <= i < j < out.len() && (#[trigger] out[i]) is Node && (
            #[trigger] out[j]) is Node implies out[i]->Node_0 != out[j]->Node_0 by {
            assert(out[j] == forest[j - 1]);
            if i == 0 {
                assert(!same_root(forest[j - 1], p));
            } else {
                assert(out[i] == forest[i - 1]);
            }
        }
    }
}

/// Every compiled schema is well formed: at every level, each label has
/// one tree.
pub proof fn lemma_compiled_well_formed(paths: Seq<Path>)
    ensures
        forest_well_formed(compiled(paths)),
    decreases paths.len(),
{
    if paths.len() > 0 {
        lemma_compiled_well_formed(paths.drop_last());
        lemma_appended_well_formed(compiled(paths.drop_last()), paths.last());
    }
}

} // verus!
