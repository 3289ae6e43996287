//! Path discovery in one document, and the policies that combine the path
//! sets of many documents into one header.
use vstd::prelude::*;
use crate::json::{Field, Json, JsonValue, fields_view, lemma_view_array, lemma_view_object, non_empty_json, values_view};
use crate::path::{JsonPath, JsonPathElement, Path, PathElem, copy_path, path_view, paths_view, same_path};

verus! {

/// A set of paths, held in the order in which they were found; no path
/// stands in it twice.
pub type PathSet = Vec<JsonPath>;

/// The paths of `a`, then those of the first `n` of `b` that were not there
/// yet.
pub open spec fn united_upto(a: Seq<Path>, b: Seq<Path>, n: nat) -> Seq<Path>
    decreases n,
{
    if n == 0 || n > b.len() {
        a
    } else {
        let front = united_upto(a, b, (n - 1) as nat);
        if front.contains(b[n - 1]) {
            front
        } else {
            front.push(b[n - 1])
        }
    }
}

/// The union of two path sets: the paths of `a`, then those of `b` that `a`
/// has not.
pub open spec fn united(a: Seq<Path>, b: Seq<Path>) -> Seq<Path> {
    united_upto(a, b, b.len())
}

/// Those of the first `n` paths of `a` that `b` has too.
pub open spec fn common_upto(a: Seq<Path>, b: Seq<Path>, n: nat) -> Seq<Path>
    decreases n,
{
    if n == 0 || n > a.len() {
        Seq::empty()
    } else {
        let front = common_upto(a, b, (n - 1) as nat);
        if b.contains(a[n - 1]) {
            front.push(a[n - 1])
        } else {
            front
        }
    }
}

/// The inner join of two path sets: an empty side hands the other side
/// through; else the paths of `a` that `b` has too.
pub open spec fn intersected(a: Seq<Path>, b: Seq<Path>) -> Seq<Path> {
    if a.len() == 0 {
        b
    } else if b.len() == 0 {
        a
    } else {
        common_upto(a, b, a.len())
    }
}

/// Every path with one step put before it; for no paths at all, the path
/// of that one step.
pub open spec fn prepended(prefix: PathElem, paths: Seq<Path>) -> Seq<Path> {
    if paths.len() == 0 {
        seq![seq![prefix]]
    } else {
        Seq::new(paths.len(), |i: int| seq![prefix] + paths[i])
    }
}

/// A sequence of paths, or nothing where it is empty.
pub open spec fn some_paths(paths: Seq<Path>) -> Option<Seq<Path>> {
    if paths.len() == 0 {
        None
    } else {
        Some(paths)
    }
}

/// What a value below the top of a document hands to the value around it:
/// its paths, or nothing where it is absent content.
///
/// A scalar has the empty set of paths. An array has the union of what its
/// elements have, each path behind an array step unless `flat`; an object
/// has the union of what its fields with content have, each path behind the
/// field's key, the fields read with `flat` off. An array or object that
/// comes out with no path is absent: the field that holds it gets no path.
pub open spec fn discovered(flat: bool, value: Json) -> Option<Seq<Path>>
    decreases value, 0int,
{
    match value {
        Json::Array(items) => some_paths(array_paths(flat, items, items.len())),
        Json::Object(fields) => some_paths(object_paths(fields, fields.len())),
        _ => Some(Seq::empty()),
    }
}

/// The paths of the first `n` elements of an array.
pub open spec fn array_paths(flat: bool, items: Seq<Json>, n: nat) -> Seq<Path>
    decreases items, n,
{
    if n == 0 || n > items.len() {
        Seq::empty()
    } else {
        let front = array_paths(flat, items, (n - 1) as nat);
        match discovered(flat, items[n - 1]) {
            None => front,
            Some(paths) => united(
                front,
                if flat {
                    paths
                } else {
                    prepended(PathElem::Iterator, paths)
                },
            ),
        }
    }
}

/// The paths of the first `n` fields of an object.
pub open spec fn object_paths(fields: Seq<Field>, n: nat) -> Seq<Path>
    decreases fields, n,
{
    if n == 0 || n > fields.len() {
        Seq::empty()
    } else {
        let front = object_paths(fields, (n - 1) as nat);
        if !fields[n - 1].value.non_empty() {
            front
        } else {
            match discovered(false, fields[n - 1].value) {
                None => front,
                Some(paths) => united(front, prepended(PathElem::Key(fields[n - 1].name), paths)),
            }
        }
    }
}

/// The path set of a value: the paths that lead to its content. A value
/// without content has the empty set.
pub open spec fn found(flat: bool, value: Json) -> Seq<Path> {
    match discovered(flat, value) {
        Some(paths) => paths,
        None => Seq::empty(),
    }
}

/// The header after the first `n` documents: their path sets, each found
/// with `flat` on, combined from the left, starting from the empty set.
pub open spec fn header_upto(intersect: bool, docs: Seq<Json>, n: nat) -> Seq<Path>
    decreases n,
{
    if n == 0 || n > docs.len() {
        Seq::empty()
    } else {
        let acc = header_upto(intersect, docs, (n - 1) as nat);
        let paths = found(true, docs[n - 1]);
        if intersect {
            intersected(acc, paths)
        } else {
            united(acc, paths)
        }
    }
}

/// Whether a path set holds a path.
pub fn has_path(set: &PathSet, path: &JsonPath) -> (r: bool)
    ensures
        r == paths_view(set@).contains(path_view(path@)),
{
    let mut i: usize = 0;
    while i < set.len()
        invariant
            i <= set.len(),
            forall|j: int| 0 <= j < i ==> paths_view(set@)[j] != path_view(path@),
        decreases set.len() - i,
    {
        if same_path(&set[i], path) {
            assert(paths_view(set@)[i as int] == path_view(path@));
            return true;
        }
        i += 1;
    }
    false
}

/// The union of two path sets.
pub fn union(lhs: PathSet, rhs: PathSet) -> (r: PathSet)
    ensures
        paths_view(r@) == united(paths_view(lhs@), paths_view(rhs@)),
{
    let ghost a = paths_view(lhs@);
    let ghost b = paths_view(rhs@);
    let mut result = lhs;
    let mut i: usize = 0;
    while i < rhs.len()
        invariant
            i <= rhs.len(),
            b == paths_view(rhs@),
            paths_view(result@) == united_upto(a, b, i as nat),
        decreases rhs.len() - i,
    {
        let ghost before = paths_view(result@);
        if !has_path(&result, &rhs[i]) {
            result.push(copy_path(&rhs[i]));
            assert(paths_view(result@) =~= before.push(b[i as int]));
        }
        i += 1;
    }
    result
}

/// The inner join of two path sets, an empty side handing the other
/// through.
pub fn intersect_or_non_empty(lhs: PathSet, rhs: PathSet) -> (r: PathSet)
    ensures
        paths_view(r@) == intersected(paths_view(lhs@), paths_view(rhs@)),
{
    if lhs.len() == 0 {
        return rhs;
    }
    if rhs.len() == 0 {
        return lhs;
    }
    let ghost a = paths_view(lhs@);
    let ghost b = paths_view(rhs@);
    let mut result: PathSet = Vec::new();
    let mut i: usize = 0;
    assert(paths_view(result@) =~= Seq::empty());
    while i < lhs.len()
        invariant
            i <= lhs.len(),
            a == paths_view(lhs@),
            b == paths_view(rhs@),
            paths_view(result@) == common_upto(a, b, i as nat),
        decreases lhs.len() - i,
    {
        let ghost before = paths_view(result@);
        if has_path(&rhs, &lhs[i]) {
            result.push(copy_path(&lhs[i]));
            assert(paths_view(result@) =~= before.push(a[i as int]));
        }
        i += 1;
    }
    result
}

/// Puts a step before every path of a set; the empty set becomes the set
/// of the one-step path.
pub fn prepend(prefix: JsonPathElement, path: PathSet) -> (r: PathSet)
    ensures
        paths_view(r@) == prepended(prefix@, paths_view(path@)),
{
    let mut out: PathSet = Vec::new();
    if path.len() == 0 {
        let mut only: JsonPath = Vec::new();
        only.push(prefix);
        assert(path_view(only@) =~= seq![prefix@]);
        out.push(only);
        assert(paths_view(out@) =~= seq![seq![prefix@]]);
        return out;
    }
    let mut i: usize = 0;
    while i < path.len()
        invariant
            i <= path.len(),
            out@.len() == i,
            forall|j: int|
                0 <= j < i ==> path_view(#[trigger] out@[j]@) == seq![prefix@] + path_view(
                    path@[j]@,
                ),
        decreases path.len() - i,
    {
        let mut longer: JsonPath = Vec::new();
        longer.push(prefix.duplicate());
        let mut k: usize = 0;
        while k < path[i].len()
            invariant
                i < path.len(),
                k <= path@[i as int]@.len(),
                longer@.len() == k + 1,
                longer@[0]@ == prefix@,
                forall|m: int| 0 <= m < k ==> longer@[m + 1]@ == path@[i as int]@[m]@,
            decreases path@[i as int]@.len() - k,
        {
            longer.push(path[i][k].duplicate());
            k += 1;
        }
        assert(path_view(longer@) =~= seq![prefix@] + path_view(path@[i as int]@));
        out.push(longer);
        i += 1;
    }
    assert(paths_view(out@) =~= prepended(prefix@, paths_view(path@)));
    out
}

/// What a value hands to the value around it: its paths, or nothing where
/// it is absent content.
#[verifier::loop_isolation(false)]
fn discover(flat: bool, value: &JsonValue) -> (r: Option<PathSet>)
    ensures
        r is Some == discovered(flat, value@) is Some,
        r matches Some(paths) ==> discovered(flat, value@) == Some(paths_view(paths@)),
    decreases value,
{
    match value {
        JsonValue::Array(items) => {
            proof {
                lemma_view_array(*items);
            }
            let ghost models = values_view(items@);
            let mut acc: PathSet = Vec::new();
            let mut i: usize = 0;
            assert(paths_view(acc@) =~= Seq::empty());
            while i < items.len()
                invariant
                    i <= items.len(),
                    paths_view(acc@) == array_paths(flat, models, i as nat),
                decreases items.len() - i,
            {
                assert(decreases_to!(value => items@[i as int]));
                assert(models[i as int] == items@[i as int]@);
                match discover(flat, &items[i]) {
                    None => {},
                    Some(paths) => {
                        if flat {
                            acc = union(acc, paths);
                        } else {
                            acc = union(acc, prepend(JsonPathElement::Iterator, paths));
                        }
                    },
                }
                i += 1;
            }
            if acc.len() == 0 {
                None
            } else {
                Some(acc)
            }
        },
        JsonValue::Object(fields) => {
            proof {
                lemma_view_object(*fields);
            }
            let ghost models = fields_view(fields@);
            let mut acc: PathSet = Vec::new();
            let mut i: usize = 0;
            assert(paths_view(acc@) =~= Seq::empty());
            while i < fields.len()
                invariant
                    i <= fields.len(),
                    paths_view(acc@) == object_paths(models, i as nat),
                decreases fields.len() - i,
            {
                assert(decreases_to!(value => fields@[i as int].1));
                assert(models[i as int].value == fields@[i as int].1@);
                assert(models[i as int].name == fields@[i as int].0@);
                if non_empty_json(&fields[i].1) {
                    match discover(false, &fields[i].1) {
                        None => {},
                        Some(paths) => {
                            let key = JsonPathElement::Key(fields[i].0.clone());
                            acc = union(acc, prepend(key, paths));
                        },
                    }
                }
                i += 1;
            }
            if acc.len() == 0 {
                None
            } else {
                Some(acc)
            }
        },
        _ => {
            let none: PathSet = Vec::new();
            assert(paths_view(none@) =~= Seq::empty());
            Some(none)
        },
    }
}

/// The path set of a value. It is always there: a value without content
/// has the empty set.
pub fn compute_paths(flat: bool, value: JsonValue) -> (r: Option<PathSet>)
    ensures
        r is Some,
        paths_view(r->0@) == found(flat, value@),
        is_path_set(paths_view(r->0@)),
{
    proof {
        lemma_discovered_path_set(flat, value@);
    }
    match discover(flat, &value) {
        Some(paths) => Some(paths),
        None => {
            let none: PathSet = Vec::new();
            assert(paths_view(none@) =~= Seq::empty());
            Some(none)
        },
    }
}

/// The header of a list of documents: their path sets, each found with
/// `flat` on, combined from the left by the chosen policy. A document
/// without content adds the empty set.
pub fn compute_header(intersect: bool, docs: &Vec<JsonValue>) -> (r: Vec<JsonPath>)
    ensures
        paths_view(r@) == header_upto(intersect, values_view(docs@), docs@.len() as nat),
        is_path_set(paths_view(r@)),
{
    proof {
        lemma_header_path_set(intersect, values_view(docs@), docs@.len() as nat);
    }
    let ghost models = values_view(docs@);
    let mut acc: PathSet = Vec::new();
    let mut i: usize = 0;
    assert(paths_view(acc@) =~= Seq::empty());
    while i < docs.len()
        invariant
            i <= docs.len(),
            models == values_view(docs@),
            header_upto(intersect, models, i as nat) == paths_view(acc@),
        decreases docs.len() - i,
    {
        assert(models[i as int] == docs@[i as int]@);
        let paths = match discover(true, &docs[i]) {
            Some(paths) => paths,
            None => {
                let none: PathSet = Vec::new();
                assert(paths_view(none@) =~= Seq::empty());
                none
            },
        };
        if intersect {
            acc = intersect_or_non_empty(acc, paths);
        } else {
            acc = union(acc, paths);
        }
        i += 1;
    }
    acc
}

/// Whether a value is a scalar, null, an empty array or an empty object.
pub open spec fn is_bare(value: Json) -> bool {
    match value {
        Json::Array(items) => items.len() == 0,
        Json::Object(fields) => fields.len() == 0,
        _ => true,
    }
}

/// Discovery finds no path in a scalar, in null, in an empty array and in
/// an empty object, in either mode.
pub proof fn lemma_bare_value_has_no_paths(flat: bool, value: Json)
    requires
        is_bare(value),
    ensures
        found(flat, value) == Seq::<Path>::empty(),
{
    match discovered(flat, value) {
        Some(paths) => {
            assert(paths =~= Seq::empty());
        },
        None => {},
    }
}

/// An object whose fields all hold null or an empty container has no path.
pub proof fn lemma_empty_fields_have_no_paths(fields: Seq<Field>, n: nat)
    requires
        n <= fields.len(),
        forall|i: int| 0 <= i < n ==> !(#[trigger] fields[i]).value.non_empty(),
    ensures
        object_paths(fields, n) == Seq::<Path>::empty(),
        n == fields.len() ==> found(true, Json::Object(fields)) == Seq::<Path>::empty() && found(
            false,
            Json::Object(fields),
        ) == Seq::<Path>::empty(),
    decreases n,
{
    if n > 0 {
        lemma_empty_fields_have_no_paths(fields, (n - 1) as nat);
    }
}

/// What the union holds, step by step: a path is in it exactly if it is in
/// `a` or among the first `n` of `b`; and it repeats no path that `a` did
/// not repeat.
pub proof fn lemma_united_upto(a: Seq<Path>, b: Seq<Path>, n: nat)
    requires
        n <= b.len(),
    ensures
        forall|p: Path|
            #[trigger] united_upto(a, b, n).contains(p) <==> (a.contains(p) || b.take(
                n as int,
            ).contains(p)),
        a.no_duplicates() ==> united_upto(a, b, n).no_duplicates(),
    decreases n,
{
    let u = united_upto(a, b, n);
    if n == 0 {
        assert(b.take(0) =~= Seq::empty());
    } else {
        lemma_united_upto(a, b, (n - 1) as nat);
        let front = united_upto(a, b, (n - 1) as nat);
        let x = b[n - 1];
        assert(b.take(n as int) =~= b.take(n - 1).push(x));
        assert forall|p: Path| #[trigger] u.contains(p) <==> (a.contains(p) || b.take(
            n as int,
        ).contains(p)) by {
            lemma_push_contains(b.take(n - 1), x, p);
            assert(front.contains(p) <==> (a.contains(p) || b.take(n - 1).contains(p)));
            if !front.contains(x) {
                lemma_push_contains(front, x, p);
            }
        }
        if a.no_duplicates() && !front.contains(x) {
            assert forall|i: int, j: int| 0 <= i < u.len() && 0 <= j < u.len() && i != j implies u[i]
                != u[j] by {
                if i < front.len() && j < front.len() {
                } else if i < front.len() {
                    assert(front[i] == u[i]);
                    assert(front.contains(u[i]));
                } else if j < front.len() {
                    assert(front[j] == u[j]);
                    assert(front.contains(u[j]));
                }
            }
        }
    }
}

/// A sequence with one more element holds what it held, and that element.
pub proof fn lemma_push_contains(s: Seq<Path>, x: Path, p: Path)
    ensures
        s.push(x).contains(p) <==> (s.contains(p) || p == x),
{
    let t = s.push(x);
    if t.contains(p) {
        let k = choose|k: int| 0 <= k < t.len() && t[k] == p;
        if k < s.len() {
            assert(s[k] == p);
        }
    }
    if s.contains(p) {
        let k = choose|k: int| 0 <= k < s.len() && s[k] == p;
        assert(t[k] == p);
    }
    if p == x {
        assert(t[s.len() as int] == p);
    }
}

/// The union of two path sets holds exactly the paths that are in one of
/// them.
pub proof fn lemma_union_is_set_union(a: Seq<Path>, b: Seq<Path>)
    ensures
        united(a, b).to_set() == a.to_set().union(b.to_set()),
        a.no_duplicates() ==> united(a, b).no_duplicates(),
{
    lemma_united_upto(a, b, b.len());
    let u = united(a, b);
    assert(b.take(b.len() as int) =~= b);
    assert forall|p: Path| u.to_set().contains(p) <==> a.to_set().union(b.to_set()).contains(p) by {
        assert(u.contains(p) <==> (a.contains(p) || b.contains(p)));
    }
    assert(u.to_set() =~= a.to_set().union(b.to_set()));
}

/// The union does not depend on the order of its operands.
pub proof fn lemma_union_commutative(a: Seq<Path>, b: Seq<Path>)
    ensures
        united(a, b).to_set() == united(b, a).to_set(),
{
    lemma_union_is_set_union(a, b);
    lemma_union_is_set_union(b, a);
    assert(a.to_set().union(b.to_set()) =~= b.to_set().union(a.to_set()));
}

/// The union does not depend on how three operands are grouped.
pub proof fn lemma_union_associative(a: Seq<Path>, b: Seq<Path>, c: Seq<Path>)
    ensures
        united(united(a, b), c).to_set() == united(a, united(b, c)).to_set(),
{
    lemma_union_is_set_union(a, b);
    lemma_union_is_set_union(united(a, b), c);
    lemma_union_is_set_union(b, c);
    lemma_union_is_set_union(a, united(b, c));
    assert(a.to_set().union(b.to_set()).union(c.to_set()) =~= a.to_set().union(
        b.to_set().union(c.to_set()),
    ));
}

/// Adding paths that are all there already changes nothing.
pub proof fn lemma_union_absorbs(a: Seq<Path>, b: Seq<Path>, n: nat)
    requires
        n <= b.len(),
        forall|j: int| 0 <= j < n ==> a.contains(#[trigger] b[j]),
    ensures
        united_upto(a, b, n) == a,
    decreases n,
{
    if n > 0 {
        lemma_union_absorbs(a, b, (n - 1) as nat);
    }
}

/// The union of a path set with itself is that path set, and uniting with
/// the same set a second time changes nothing.
pub proof fn lemma_union_idempotent(a: Seq<Path>, b: Seq<Path>)
    ensures
        united(a, a) == a,
        united(united(a, b), b) == united(a, b),
{
    assert forall|j: int| 0 <= j < a.len() implies a.contains(#[trigger] a[j]) by {}
    lemma_union_absorbs(a, a, a.len());
    lemma_united_upto(a, b, b.len());
    let u = united(a, b);
    assert(b.take(b.len() as int) =~= b);
    assert forall|j: int| 0 <= j < b.len() implies u.contains(#[trigger] b[j]) by {
        assert(b.contains(b[j]));
        assert(u.contains(b[j]) <==> (a.contains(b[j]) || b.contains(b[j])));
    }
    lemma_union_absorbs(u, b, b.len());
}

/// The inner join hands the other side through where one side is empty,
/// whichever side it is.
pub proof fn lemma_intersect_passes_through(x: Seq<Path>)
    ensures
        intersected(Seq::empty(), x) == x,
        intersected(x, Seq::empty()) == x,
{
}

/// What the first `n` paths of `a` have in common with `b`.
pub proof fn lemma_common_upto(a: Seq<Path>, b: Seq<Path>, n: nat)
    requires
        n <= a.len(),
    ensures
        forall|p: Path|
            #[trigger] common_upto(a, b, n).contains(p) <==> (b.contains(p) && a.take(
                n as int,
            ).contains(p)),
    decreases n,
{
    let c = common_upto(a, b, n);
    if n == 0 {
        assert(a.take(0) =~= Seq::empty());
    } else {
        lemma_common_upto(a, b, (n - 1) as nat);
        let front = common_upto(a, b, (n - 1) as nat);
        let x = a[n - 1];
        assert(a.take(n as int) =~= a.take(n - 1).push(x));
        assert forall|p: Path| #[trigger] c.contains(p) <==> (b.contains(p) && a.take(
            n as int,
        ).contains(p)) by {
            lemma_push_contains(a.take(n - 1), x, p);
            assert(front.contains(p) <==> (b.contains(p) && a.take(n - 1).contains(p)));
            if b.contains(x) {
                lemma_push_contains(front, x, p);
            }
        }
    }
}

/// Of two path sets that both hold a path, the inner join holds exactly
/// the paths that are in both.
pub proof fn lemma_intersect_is_set_intersection(a: Seq<Path>, b: Seq<Path>)
    requires
        a.len() > 0,
        b.len() > 0,
    ensures
        intersected(a, b).to_set() == a.to_set().intersect(b.to_set()),
{
    lemma_common_upto(a, b, a.len());
    let c = intersected(a, b);
    assert(a.take(a.len() as int) =~= a);
    assert forall|p: Path| c.to_set().contains(p) <==> a.to_set().intersect(b.to_set()).contains(
        p,
    ) by {
        assert(c.contains(p) <==> (b.contains(p) && a.contains(p)));
    }
    assert(c.to_set() =~= a.to_set().intersect(b.to_set()));
}

/// Whether a list of paths is a path set as discovery makes them: no path
/// twice, and no empty path.
pub open spec fn is_path_set(paths: Seq<Path>) -> bool {
    paths.no_duplicates() && forall|i: int| 0 <= i < paths.len() ==> (#[trigger] paths[i]).len() > 0
}

/// The union of two path sets is a path set.
pub proof fn lemma_united_path_set(a: Seq<Path>, b: Seq<Path>)
    requires
        is_path_set(a),
        is_path_set(b),
    ensures
        is_path_set(united(a, b)),
{
    lemma_united_upto(a, b, b.len());
    let u = united(a, b);
    assert(b.take(b.len() as int) =~= b);
    assert forall|i: int| 0 <= i < u.len() implies (#[trigger] u[i]).len() > 0 by {
        assert(u.contains(u[i]));
        assert(a.contains(u[i]) || b.contains(u[i]));
    }
}

/// The inner join of two path sets is a path set.
pub proof fn lemma_intersected_path_set(a: Seq<Path>, b: Seq<Path>)
    requires
        is_path_set(a),
        is_path_set(b),
    ensures
        is_path_set(intersected(a, b)),
{
    if a.len() > 0 && b.len() > 0 {
        lemma_common_path_set(a, b, a.len());
    }
}

/// What the first paths of a path set have in common with another is a
/// path set.
pub proof fn lemma_common_path_set(a: Seq<Path>, b: Seq<Path>, n: nat)
    requires
        is_path_set(a),
        n <= a.len(),
    ensures
        is_path_set(common_upto(a, b, n)),
    decreases n,
{
    if n > 0 {
        lemma_common_path_set(a, b, (n - 1) as nat);
        lemma_common_upto(a, b, (n - 1) as nat);
        let front = common_upto(a, b, (n - 1) as nat);
        let c = common_upto(a, b, n);
        if b.contains(a[n - 1]) {
            assert(front.contains(a[n - 1]) <==> (b.contains(a[n - 1]) && a.take(n - 1).contains(
                a[n - 1],
            )));
            if a.take(n - 1).contains(a[n - 1]) {
                let earlier = a.take(n - 1);
                let k = choose|k: int| 0 <= k < earlier.len() && earlier[k] == a[n - 1];
                assert(a[k] == a[n - 1]);
            }
            assert forall|i: int, j: int| 0 <= i < c.len() && 0 <= j < c.len() && i != j implies c[i]
                != c[j] by {
                if i < front.len() && j < front.len() {
                    assert(c[i] == front[i] && c[j] == front[j]);
                } else if i < front.len() {
                    assert(c[i] == front[i]);
                    assert(front.contains(c[i]));
                } else if j < front.len() {
                    assert(c[j] == front[j]);
                    assert(front.contains(c[j]));
                }
            }
            assert forall|i: int| 0 <= i < c.len() implies (#[trigger] c[i]).len() > 0 by {
                if i < front.len() {
                    assert(c[i] == front[i]);
                }
            }
        }
    }
}

/// Putting a step before the paths of a path set gives a path set.
pub proof fn lemma_prepended_path_set(prefix: PathElem, paths: Seq<Path>)
    requires
        paths.no_duplicates(),
    ensures
        is_path_set(prepended(prefix, paths)),
{
    let out = prepended(prefix, paths);
    if paths.len() > 0 {
        assert forall|i: int, j: int| 0 <= i < out.len() && 0 <= j < out.len() && i != j implies out[i]
            != out[j] by {
            if out[i] == out[j] {
                assert(out[i].skip(1) =~= paths[i]);
                assert(out[j].skip(1) =~= paths[j]);
            }
        }
    }
}

/// What discovery finds is a path set: it holds no path twice, and never
/// the empty path.
pub proof fn lemma_discovered_path_set(flat: bool, value: Json)
    ensures
        discovered(flat, value) matches Some(paths) ==> is_path_set(paths),
    decreases value, 0int,
{
    match value {
        Json::Array(items) => lemma_array_path_set(flat, items, items.len()),
        Json::Object(fields) => lemma_object_path_set(fields, fields.len()),
        _ => {},
    }
}

/// The paths of the first elements of an array are a path set.
pub proof fn lemma_array_path_set(flat: bool, items: Seq<Json>, n: nat)
    requires
        n <= items.len(),
    ensures
        is_path_set(array_paths(flat, items, n)),
    decreases items, n,
{
    if n > 0 {
        lemma_array_path_set(flat, items, (n - 1) as nat);
        lemma_discovered_path_set(flat, items[n - 1]);
        match discovered(flat, items[n - 1]) {
            None => {},
            Some(paths) => {
                let front = array_paths(flat, items, (n - 1) as nat);
                if flat {
                    lemma_united_path_set(front, paths);
                } else {
                    lemma_prepended_path_set(PathElem::Iterator, paths);
                    lemma_united_path_set(front, prepended(PathElem::Iterator, paths));
                }
            },
        }
    }
}

/// The paths of the first fields of an object are a path set.
pub proof fn lemma_object_path_set(fields: Seq<Field>, n: nat)
    requires
        n <= fields.len(),
    ensures
        is_path_set(object_paths(fields, n)),
    decreases fields, n,
{
    if n > 0 {
        lemma_object_path_set(fields, (n - 1) as nat);
        if fields[n - 1].value.non_empty() {
            lemma_discovered_path_set(false, fields[n - 1].value);
            match discovered(false, fields[n - 1].value) {
                None => {},
                Some(paths) => {
                    let front = object_paths(fields, (n - 1) as nat);
                    let key = PathElem::Key(fields[n - 1].name);
                    lemma_prepended_path_set(key, paths);
                    lemma_united_path_set(front, prepended(key, paths));
                },
            }
        }
    }
}

/// Every header is a path set.
pub proof fn lemma_header_path_set(intersect: bool, docs: Seq<Json>, n: nat)
    requires
        n <= docs.len(),
    ensures
        is_path_set(header_upto(intersect, docs, n)),
    decreases n,
{
    if n > 0 {
        lemma_header_path_set(intersect, docs, (n - 1) as nat);
        lemma_discovered_path_set(true, docs[n - 1]);
        let acc = header_upto(intersect, docs, (n - 1) as nat);
        let paths = found(true, docs[n - 1]);
        if intersect {
            lemma_intersected_path_set(acc, paths);
        } else {
            lemma_united_path_set(acc, paths);
        }
    }
}

/// A document without content leaves the header as it was, under either
/// policy.
pub proof fn lemma_empty_document_keeps_header(intersect: bool, docs: Seq<Json>, n: nat)
    requires
        0 < n <= docs.len(),
        found(true, docs[n - 1]) == Seq::<Path>::empty(),
    ensures
        header_upto(intersect, docs, n) == header_upto(intersect, docs, (n - 1) as nat),
{
}

} // verus!
