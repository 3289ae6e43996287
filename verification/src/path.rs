//! Paths: the addressable locations inside a JSON value.
use vstd::prelude::*;

verus! {

/// The model of one step of a path.
pub enum PathElem {
    Key(Seq<char>),
    Iterator,
}

/// The model of a path: its steps from the root to the leaf.
pub type Path = Seq<PathElem>;

/// One step of a path: into the field of an object, or into every element
/// of an array.
#[derive(Clone, PartialEq, Eq, Hash, Debug)]
pub enum JsonPathElement {
    Key(String),
    Iterator,
}

/// A path: its steps from the root to the leaf. The empty path is the
/// value itself.
pub type JsonPath = Vec<JsonPathElement>;

impl View for JsonPathElement {
    type V = PathElem;

    open spec fn view(&self) -> PathElem {
        match self {
            JsonPathElement::Key(k) => PathElem::Key(k@),
            JsonPathElement::Iterator => PathElem::Iterator,
        }
    }
}

impl JsonPathElement {
    /// Whether two steps are the same step.
    pub fn same(&self, other: &JsonPathElement) -> (r: bool)
        ensures
            r == (self@ == other@),
    {
        match (self, other) {
            (JsonPathElement::Key(a), JsonPathElement::Key(b)) => *a == *b,
            (JsonPathElement::Iterator, JsonPathElement::Iterator) => true,
            _ => false,
        }
    }

    /// A copy of the step.
    pub fn duplicate(&self) -> (r: JsonPathElement)
        ensures
            r@ == self@,
    {
        match self {
            JsonPathElement::Key(k) => JsonPathElement::Key(k.clone()),
            JsonPathElement::Iterator => JsonPathElement::Iterator,
        }
    }
}

/// The model of a path held in a vector.
pub open spec fn path_view(path: Seq<JsonPathElement>) -> Path {
    Seq::new(path.len(), |i: int| path[i]@)
}

/// The models of a list of paths, in order.
pub open spec fn paths_view(paths: Seq<JsonPath>) -> Seq<Path> {
    Seq::new(paths.len(), |i: int| path_view(paths[i]@))
}

/// The text of one step: a key as it is, `$` for an array step.
pub open spec fn elem_text(e: PathElem) -> Seq<char> {
    match e {
        PathElem::Key(k) => k,
        PathElem::Iterator => seq!['$'],
    }
}

/// The text of a path: the texts of its steps, joined by `.`.
pub open spec fn path_text(p: Path) -> Seq<char>
    decreases p.len(),
{
    if p.len() == 0 {
        Seq::empty()
    } else if p.len() == 1 {
        elem_text(p[0])
    } else {
        path_text(p.drop_last()) + seq!['.'] + elem_text(p.last())
    }
}

/// A path without its array steps.
pub open spec fn without_iterators(p: Path) -> Path {
    p.filter(|e: PathElem| e != PathElem::Iterator)
}

/// Whether two paths are the same path.
pub fn same_path(a: &JsonPath, b: &JsonPath) -> (r: bool)
    ensures
        r == (path_view(a@) == path_view(b@)),
{
    if a.len() != b.len() {
        assert(path_view(a@).len() != path_view(b@).len());
        return false;
    }
    let mut i: usize = 0;
    while i < a.len()
        invariant
            a.len() == b.len(),
            i <= a.len(),
            forall|j: int| 0 <= j < i ==> a@[j]@ == b@[j]@,
        decreases a.len() - i,
    {
        if !a[i].same(&b[i]) {
            assert(path_view(a@)[i as int] != path_view(b@)[i as int]);
            return false;
        }
        i += 1;
    }
    assert(path_view(a@) =~= path_view(b@));
    true
}

/// A copy of a path.
pub fn copy_path(path: &JsonPath) -> (r: JsonPath)
    ensures
        path_view(r@) == path_view(path@),
        r@.len() == path@.len(),
{
    let mut out: JsonPath = Vec::new();
    let mut i: usize = 0;
    while i < path.len()
        invariant
            i <= path.len(),
            out@.len() == i,
            forall|j: int| 0 <= j < i ==> out@[j]@ == path@[j]@,
        decreases path.len() - i,
    {
        out.push(path[i].duplicate());
        i += 1;
    }
    assert(path_view(out@) =~= path_view(path@));
    out
}

/// The column name of a path: its steps joined by `.`, an array step
/// written `$`.
pub fn json_path_string(path: JsonPath) -> (r: String)
    ensures
        r@ == path_text(path_view(path@)),
{
    let mut out = String::new();
    let mut i: usize = 0;
    while i < path.len()
        invariant
            i <= path.len(),
            out@ == path_text(path_view(path@).take(i as int)),
        decreases path.len() - i,
    {
        let ghost before = path_view(path@).take(i as int);
        let ghost after = path_view(path@).take(i + 1);
        proof {
            reveal_strlit(".");
            reveal_strlit("$");
            assert(after.drop_last() =~= before);
            assert(after.last() == path@[i as int]@);
        }
        if i > 0 {
            out.append(".");
        }
        match &path[i] {
            JsonPathElement::Key(k) => out.append(k.as_str()),
            JsonPathElement::Iterator => out.append("$"),
        }
        proof {
            if i == 0 {
                assert(out@ =~= elem_text(after[0]));
            }
        }
        i += 1;
    }
    assert(path_view(path@).take(path.len() as int) =~= path_view(path@));
    out
}

/// The path without its array steps.
pub fn drop_iterators(path: JsonPath) -> (r: JsonPath)
    ensures
        path_view(r@) == without_iterators(path_view(path@)),
{
    let mut out: JsonPath = Vec::new();
    let mut i: usize = 0;
    while i < path.len()
        invariant
            i <= path.len(),
            path_view(out@) == without_iterators(path_view(path@).take(i as int)),
        decreases path.len() - i,
    {
        let ghost before = path_view(path@).take(i as int);
        let ghost after = path_view(path@).take(i + 1);
        let ghost old_out = path_view(out@);
        proof {
            reveal(Seq::filter);
            assert(after.drop_last() =~= before);
            assert(after.last() == path@[i as int]@);
        }
        match &path[i] {
            JsonPathElement::Key(k) => {
                out.push(JsonPathElement::Key(k.clone()));
                assert(path_view(out@) =~= old_out.push(path@[i as int]@));
            },
            JsonPathElement::Iterator => {},
        }
        i += 1;
    }
    assert(path_view(path@).take(path.len() as int) =~= path_view(path@));
    out
}

} // verus!
