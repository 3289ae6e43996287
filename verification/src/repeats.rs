//! Paths in a compiled schema: each header path is held by the schema, and
//! adding a path that is held changes nothing.
use vstd::prelude::*;
use crate::discover::{lemma_united_upto, united, united_upto};
use crate::path::Path;
use crate::schema::{
    SchemaModel, appended, chain, compiled, distinct, forest_well_formed, has_root,
    lemma_appended_well_formed, lemma_compiled_well_formed, lemma_distinct_well_formed,
    lemma_merged_well_formed, merged, same_root, well_formed,
};

verus! {

/// Whether a tree holds a path: it is a node labelled by the first step,
/// and its children hold the rest.
pub open spec fn settled_at(t: SchemaModel, p: Path) -> bool
    decreases p.len(), 0int,
{
    p.len() > 0 && match t {
        SchemaModel::Node(el, children) => el == p[0] && children.len() > 0 && settled(
            children,
            p.skip(1),
        ),
        SchemaModel::End => false,
    }
}

/// Whether a forest holds a path: the steps of the path label a chain of
/// nodes from one of its trees downwards, and the end mark stands among
/// the children of the last. The empty path is held where the end mark is
/// among the trees.
pub open spec fn settled(forest: Seq<SchemaModel>, p: Path) -> bool
    decreases p.len(), 1int,
{
    if p.len() == 0 {
        forest.contains(SchemaModel::End)
    } else {
        exists|i: int| 0 <= i < forest.len() && settled_at(#[trigger] forest[i], p)
    }
}

/// De-duplication changes nothing where nothing repeats.
pub proof fn lemma_distinct_same(s: Seq<SchemaModel>)
    requires
        s.no_duplicates(),
    ensures
        distinct(s) == s,
    decreases s.len(),
{
    if s.len() > 0 {
        let front = s.drop_last();
        lemma_distinct_same(front);
        if front.contains(s.last()) {
            let k = choose|k: int| 0 <= k < front.len() && front[k] == s.last();
            assert(s[k] == s[s.len() - 1]);
        }
        assert(front.push(s.last()) =~= s);
    } else {
        assert(distinct(s) =~= s);
    }
}

/// De-duplication leaves a forest with trees a forest with trees.
pub proof fn lemma_distinct_not_empty(s: Seq<SchemaModel>)
    requires
        s.len() > 0,
    ensures
        distinct(s).len() > 0,
    decreases s.len(),
{
    if s.len() > 1 {
        lemma_distinct_not_empty(s.drop_last());
    }
}

/// Merging a path into a tree that holds it changes nothing.
pub proof fn lemma_held_path_merges_to_same(t: SchemaModel, p: Path)
    requires
        well_formed(t),
        settled_at(t, p),
    ensures
        merged(t, p) == t,
    decreases p.len(), 0int,
{
    let children = t->Node_1;
    if p.len() > 1 {
        assert(forest_well_formed(children));
        lemma_held_path_appends_to_same(children, p.skip(1));
        lemma_distinct_same(children);
    }
}

/// Adding a path to a forest that holds it changes nothing.
pub proof fn lemma_held_path_appends_to_same(forest: Seq<SchemaModel>, p: Path)
    requires
        forest_well_formed(forest),
        p.len() > 0,
        settled(forest, p),
    ensures
        appended(forest, p) == forest,
    decreases p.len(), 1int,
{
    let out = appended(forest, p);
    let i = choose|i: int| 0 <= i < forest.len() && settled_at(#[trigger] forest[i], p);
    assert(same_root(forest[i], p));
    assert(has_root(forest, p));
    assert(well_formed(forest[i]));
    lemma_held_path_merges_to_same(forest[i], p);
    assert forall|j: int| 0 <= j < forest.len() implies out[j] == forest[j] by {
        if same_root(forest[j], p) && j != i {
            if j < i {
                assert(forest[j]->Node_0 != forest[i]->Node_0);
            } else {
                assert(forest[i]->Node_0 != forest[j]->Node_0);
            }
        }
    }
    assert(out =~= forest);
}

/// The chain of a path holds the path.
pub proof fn lemma_chain_settled(q: Path)
    ensures
        settled(seq![chain(q)], q),
    decreases q.len(),
{
    let f = seq![chain(q)];
    if q.len() > 0 {
        lemma_chain_settled(q.skip(1));
        assert(settled_at(f[0], q));
    } else {
        assert(f[0] == SchemaModel::End);
    }
}

/// A path that a forest holds is held by the forest without its repeats.
pub proof fn lemma_settled_distinct(forest: Seq<SchemaModel>, p: Path)
    requires
        forest_well_formed(forest),
        settled(forest, p),
    ensures
        settled(distinct(forest), p),
{
    lemma_distinct_well_formed(forest);
    if p.len() > 0 {
        let i = choose|i: int| 0 <= i < forest.len() && settled_at(#[trigger] forest[i], p);
        assert(forest.contains(forest[i]));
        let d = distinct(forest);
        assert(d.contains(forest[i]));
        let j = choose|j: int| 0 <= j < d.len() && d[j] == forest[i];
        assert(settled_at(d[j], p));
    }
}

/// A tree labelled by the first step of a path holds the path once the
/// path has been merged into it.
pub proof fn lemma_merged_settled(t: SchemaModel, p: Path)
    requires
        well_formed(t),
        same_root(t, p),
    ensures
        settled_at(merged(t, p), p),
    decreases p.len(), 0int,
{
    let children = t->Node_1;
    let tail = p.skip(1);
    if children.len() == 0 {
        lemma_chain_settled(tail);
    } else if p.len() == 1 && children.contains(SchemaModel::End) {
    } else {
        assert(forest_well_formed(children));
        let grown = appended(children, tail);
        lemma_appended_settled(children, tail);
        lemma_appended_well_formed(children, tail);
        lemma_settled_distinct(grown, tail);
        lemma_distinct_not_empty(grown);
    }
}

/// A forest holds a path once the path has been added to it.
pub proof fn lemma_appended_settled(forest: Seq<SchemaModel>, p: Path)
    requires
        forest_well_formed(forest),
    ensures
        settled(appended(forest, p), p),
        appended(forest, p).len() > 0,
    decreases p.len(), 1int,
{
    let out = appended(forest, p);
    if p.len() > 0 {
        if has_root(forest, p) {
            let i = choose|i: int| 0 <= i < forest.len() && same_root(#[trigger] forest[i], p);
            assert(well_formed(forest[i]));
            lemma_merged_settled(forest[i], p);
            assert(settled_at(out[i], p));
        } else {
            lemma_chain_settled(p.skip(1));
            assert(out[0] == chain(p));
            assert(settled_at(out[0], p));
        }
    } else {
        assert(!has_root(forest, p));
        assert(out[0] == SchemaModel::End);
    }
}

/// A tree that holds a path still holds it after any path has been merged
/// into it.
pub proof fn lemma_merged_keeps(t: SchemaModel, p: Path, q: Path)
    requires
        well_formed(t),
        settled_at(t, p),
    ensures
        settled_at(merged(t, q), p),
    decreases p.len(), 0int,
{
    let children = t->Node_1;
    if q.len() > 0 && t->Node_0 == q[0] && !(q.len() == 1 && children.contains(SchemaModel::End)) {
        let grown = appended(children, q.skip(1));
        assert(forest_well_formed(children));
        lemma_appended_keeps(children, p.skip(1), q.skip(1));
        lemma_appended_well_formed(children, q.skip(1));
        lemma_appended_settled(children, q.skip(1));
        lemma_settled_distinct(grown, p.skip(1));
        lemma_distinct_not_empty(grown);
    }
}

/// A forest that holds a path still holds it after any path has been
/// added to it.
pub proof fn lemma_appended_keeps(forest: Seq<SchemaModel>, p: Path, q: Path)
    requires
        forest_well_formed(forest),
        settled(forest, p),
    ensures
        settled(appended(forest, q), p),
    decreases p.len(), 1int,
{
    let out = appended(forest, q);
    if p.len() == 0 {
        let k = choose|k: int| 0 <= k < forest.len() && forest[k] == SchemaModel::End;
        if has_root(forest, q) {
            assert(out[k] == SchemaModel::End);
        } else {
            assert(out[k + 1] == SchemaModel::End);
        }
    } else {
        let i = choose|i: int| 0 <= i < forest.len() && settled_at(#[trigger] forest[i], p);
        if has_root(forest, q) {
            if same_root(forest[i], q) {
                assert(well_formed(forest[i]));
                lemma_merged_keeps(forest[i], p, q);
            }
            assert(settled_at(out[i], p));
        } else {
            assert(out[i + 1] == forest[i]);
            assert(settled_at(out[i + 1], p));
        }
    }
}

/// Whether no path of a list is the empty path.
pub open spec fn no_empty_path(paths: Seq<Path>) -> bool {
    forall|i: int| 0 <= i < paths.len() ==> (#[trigger] paths[i]).len() > 0
}

/// The first `n` paths compile to what their distinct paths compile to,
/// and the result holds each of them.
pub proof fn lemma_compiled_upto(paths: Seq<Path>, n: nat)
    requires
        no_empty_path(paths),
        n <= paths.len(),
    ensures
        compiled(paths.take(n as int)) == compiled(united_upto(Seq::empty(), paths, n)),
        forest_well_formed(compiled(paths.take(n as int))),
        forall|i: int| 0 <= i < n ==> settled(compiled(paths.take(n as int)), #[trigger] paths[i]),
    decreases n,
{
    let none = Seq::<Path>::empty();
    if n == 0 {
        assert(paths.take(0) =~= none);
    } else {
        lemma_compiled_upto(paths, (n - 1) as nat);
        let x = paths[n - 1];
        let before = compiled(paths.take(n - 1));
        let u = united_upto(none, paths, (n - 1) as nat);
        assert(paths.take(n as int).drop_last() =~= paths.take(n - 1));
        assert(paths.take(n as int).last() == x);
        let after = compiled(paths.take(n as int));
        assert(after == appended(before, x));
        lemma_united_upto(none, paths, (n - 1) as nat);
        assert(u.contains(x) <==> (none.contains(x) || paths.take(n - 1).contains(x)));
        lemma_appended_well_formed(before, x);
        lemma_appended_settled(before, x);
        assert forall|i: int| 0 <= i < n implies settled(after, #[trigger] paths[i]) by {
            if i < n - 1 {
                lemma_appended_keeps(before, paths[i], x);
            }
        }
        if u.contains(x) {
            let earlier = paths.take(n - 1);
            let first = choose|i: int| 0 <= i < earlier.len() && earlier[i] == x;
            assert(paths[first] == x);
            assert(settled(before, paths[first]));
            lemma_held_path_appends_to_same(before, x);
        } else {
            let v = u.push(x);
            assert(v.drop_last() =~= u);
            assert(v.last() == x);
            assert(compiled(v) == appended(compiled(u), x));
        }
    }
}

/// A header with repeated paths compiles to the schema of the header
/// without them.
pub proof fn lemma_compile_ignores_repeats(paths: Seq<Path>)
    requires
        no_empty_path(paths),
    ensures
        compiled(paths) == compiled(united(Seq::empty(), paths)),
{
    lemma_compiled_upto(paths, paths.len());
    assert(paths.take(paths.len() as int) =~= paths);
}

/// A compiled schema holds every path of its header.
pub proof fn lemma_compiled_holds_header(paths: Seq<Path>, i: int)
    requires
        no_empty_path(paths),
        0 <= i < paths.len(),
    ensures
        settled(compiled(paths), paths[i]),
{
    lemma_compiled_upto(paths, paths.len());
    assert(paths.take(paths.len() as int) =~= paths);
}

/// The chain of a path holds that path and no other.
pub proof fn lemma_chain_holds_only(q: Path, p: Path)
    requires
        settled(seq![chain(q)], p),
    ensures
        p == q,
    decreases p.len(),
{
    let f = seq![chain(q)];
    if p.len() == 0 {
        let k = choose|k: int| 0 <= k < f.len() && f[k] == SchemaModel::End;
        assert(f[k] == chain(q));
        assert(p =~= q);
    } else {
        let k = choose|k: int| 0 <= k < f.len() && settled_at(#[trigger] f[k], p);
        assert(f[k] == chain(q));
        assert(q.len() > 0);
        lemma_chain_holds_only(q.skip(1), p.skip(1));
        assert(p =~= seq![p[0]] + p.skip(1));
        assert(q =~= seq![q[0]] + q.skip(1));
    }
}

/// A path that a forest without its repeats holds is held by the forest.
pub proof fn lemma_distinct_holds_only(forest: Seq<SchemaModel>, p: Path)
    requires
        forest_well_formed(forest),
        settled(distinct(forest), p),
    ensures
        settled(forest, p),
{
    lemma_distinct_well_formed(forest);
    let d = distinct(forest);
    if p.len() > 0 {
        let j = choose|j: int| 0 <= j < d.len() && settled_at(#[trigger] d[j], p);
        assert(d.contains(d[j]));
        assert(forest.contains(d[j]));
        let i = choose|i: int| 0 <= i < forest.len() && forest[i] == d[j];
        assert(settled_at(forest[i], p));
    }
}

/// A tree into which a path was merged holds that path and what it held
/// before, and nothing else.
pub proof fn lemma_merged_holds_only(t: SchemaModel, q: Path, p: Path)
    requires
        well_formed(t),
        same_root(t, q),
        settled_at(merged(t, q), p),
    ensures
        settled_at(t, p) || p == q,
    decreases p.len(), 0int,
{
    let children = t->Node_1;
    let ptail = p.skip(1);
    let qtail = q.skip(1);
    assert(p =~= seq![p[0]] + ptail);
    assert(q =~= seq![q[0]] + qtail);
    if children.len() == 0 {
        lemma_chain_holds_only(qtail, ptail);
    } else if q.len() == 1 && children.contains(SchemaModel::End) {
    } else {
        assert(forest_well_formed(children));
        let grown = appended(children, qtail);
        lemma_appended_well_formed(children, qtail);
        lemma_distinct_holds_only(grown, ptail);
        lemma_appended_holds_only(children, qtail, ptail);
    }
}

/// A forest to which a path was added holds that path and what it held
/// before, and nothing else.
pub proof fn lemma_appended_holds_only(forest: Seq<SchemaModel>, q: Path, p: Path)
    requires
        forest_well_formed(forest),
        settled(appended(forest, q), p),
    ensures
        settled(forest, p) || p == q,
    decreases p.len(), 1int,
{
    let out = appended(forest, q);
    if p.len() == 0 {
        let k = choose|k: int| 0 <= k < out.len() && out[k] == SchemaModel::End;
        if q.len() == 0 {
            assert(p =~= q);
        } else if has_root(forest, q) {
            assert(well_formed(forest[k]));
            if same_root(forest[k], q) {
                lemma_merged_well_formed(forest[k], q);
            }
            assert(forest[k] == SchemaModel::End);
        } else {
            assert(out[0] == chain(q));
            assert(forest[k - 1] == SchemaModel::End);
        }
    } else {
        let k = choose|k: int| 0 <= k < out.len() && settled_at(#[trigger] out[k], p);
        if has_root(forest, q) {
            if same_root(forest[k], q) {
                assert(well_formed(forest[k]));
                lemma_merged_holds_only(forest[k], q, p);
            }
            if !(p == q) {
                assert(settled_at(forest[k], p));
            }
        } else {
            if k == 0 {
                assert(out[0] == chain(q));
                let only = seq![chain(q)];
                assert(settled_at(only[0], p));
                lemma_chain_holds_only(q, p);
            } else {
                assert(out[k] == forest[k - 1]);
                assert(settled_at(forest[k - 1], p));
            }
        }
    }
}

/// A compiled schema holds no path but those of its header.
pub proof fn lemma_compiled_holds_only_header(paths: Seq<Path>, p: Path)
    requires
        settled(compiled(paths), p),
    ensures
        paths.contains(p),
    decreases paths.len(),
{
    if paths.len() > 0 {
        let front = paths.drop_last();
        lemma_compiled_well_formed(front);
        lemma_appended_holds_only(compiled(front), paths.last(), p);
        if p == paths.last() {
            assert(paths[paths.len() - 1] == p);
        } else {
            lemma_compiled_holds_only_header(front, p);
            let k = choose|k: int| 0 <= k < front.len() && front[k] == p;
            assert(paths[k] == p);
        }
    }
}

/// The paths that a compiled schema holds are exactly the paths of its
/// header.
pub proof fn lemma_compiled_holds_exactly_header(paths: Seq<Path>, p: Path)
    requires
        no_empty_path(paths),
    ensures
        settled(compiled(paths), p) <==> paths.contains(p),
{
    if settled(compiled(paths), p) {
        lemma_compiled_holds_only_header(paths, p);
    }
    if paths.contains(p) {
        let i = choose|i: int| 0 <= i < paths.len() && paths[i] == p;
        lemma_compiled_holds_header(paths, i);
    }
}

} // verus!
