//! De-duplication, the pairwise product of two lists, row fragments and
//! their Cartesian join.
use vstd::prelude::*;
use vstd::arithmetic::div_mod::lemma_fundamental_div_mod_converse;
use vstd::std_specs::cmp::PartialEqSpec;
use crate::json::{Json, JsonValue};

verus! {

/// Whether `x` equals, by `==`, some element of `s`.
pub open spec fn occurs<T: PartialEq>(s: Seq<T>, x: T) -> bool {
    exists|j: int| 0 <= j < s.len() && #[trigger] s[j].eq_spec(&x)
}

/// A sequence without the elements that equal an earlier one: the first of
/// each stays, in its place.
pub open spec fn dedup_seq<T: PartialEq>(s: Seq<T>) -> Seq<T>
    decreases s.len(),
{
    if s.len() == 0 {
        Seq::empty()
    } else {
        let front = dedup_seq(s.drop_last());
        if occurs(front, s.last()) {
            front
        } else {
            front.push(s.last())
        }
    }
}

/// Keeps the first of the elements that equal one another and drops the
/// rest, in the order in which they came.
pub fn dedup_vec<T: PartialEq>(vec: Vec<T>) -> (output: Vec<T>)
    ensures
        T::obeys_eq_spec() ==> output@ == dedup_seq(vec@),
        output@.len() <= vec@.len(),
{
    let ghost all = vec@;
    let mut vec = vec;
    let mut output: Vec<T> = Vec::new();
    let mut rest: Vec<T> = Vec::new();
    // Turn the vector round, so that popping hands the elements out in order.
    while vec.len() > 0
        invariant
            rest@.len() + vec@.len() == all.len(),
            vec@ == all.take(vec@.len() as int),
            forall|j: int| 0 <= j < rest@.len() ==> rest@[j] == all[all.len() - 1 - j],
        decreases vec@.len(),
    {
        let el = vec.pop().unwrap();
        rest.push(el);
        assert(vec@ =~= all.take(vec@.len() as int));
    }
    let ghost mut done: int = 0;
    while rest.len() > 0
        invariant
            done + rest@.len() == all.len(),
            0 <= done,
            forall|j: int| 0 <= j < rest@.len() ==> rest@[j] == all[all.len() - 1 - j],
            T::obeys_eq_spec() ==> output@ == dedup_seq(all.take(done)),
            output@.len() <= done,
        decreases rest@.len(),
    {
        let el = rest.pop().unwrap();
        assert(el == all[done]);
        let mut found = false;
        let mut j: usize = 0;
        while j < output.len() && !found
            invariant
                j <= output.len(),
                T::obeys_eq_spec() ==> (found <==> exists|k: int|
                    0 <= k < j && #[trigger] output@[k].eq_spec(&el)),
            decreases output.len() - j + (if found { 0int } else { 1int }),
        {
            if output[j] == el {
                found = true;
            }
            j += 1;
        }
        proof {
            assert(all.take(done + 1).drop_last() =~= all.take(done));
            assert(all.take(done + 1).last() == el);
            done = done + 1;
        }
        if !found {
            output.push(el);
        }
    }
    assert(all.take(done) =~= all);
    output
}

/// Combines every element of `lhs` with every element of `rhs`, the left
/// one varying slowest. An empty side is no annihilator: the other side
/// comes back as it is.
pub fn x_vec<T, F: Fn(&T, &T) -> T>(f: F, lhs: Vec<T>, rhs: Vec<T>) -> (out: Vec<T>)
    requires
        forall|i: int, j: int|
            0 <= i < lhs@.len() && 0 <= j < rhs@.len() ==> call_requires(
                f,
                (&#[trigger] lhs@[i], &#[trigger] rhs@[j]),
            ),
    ensures
        lhs@.len() == 0 ==> out@ == rhs@,
        lhs@.len() > 0 && rhs@.len() == 0 ==> out@ == lhs@,
        lhs@.len() > 0 && rhs@.len() > 0 ==> {
            &&& out@.len() == lhs@.len() * rhs@.len()
            &&& forall|k: int|
                0 <= k < out@.len() ==> call_ensures(
                    f,
                    (&lhs@[k / (rhs@.len() as int)], &rhs@[k % (rhs@.len() as int)]),
                    #[trigger] out@[k],
                )
        },
{
    if lhs.len() == 0 {
        rhs
    } else if rhs.len() == 0 {
        lhs
    } else {
        let mut out: Vec<T> = Vec::new();
        let ghost width = rhs@.len() as int;
        let mut i: usize = 0;
        while i < lhs.len()
            invariant
                i <= lhs.len(),
                width == rhs@.len(),
                width > 0,
                out@.len() == i * width,
                forall|a: int, b: int|
                    0 <= a < lhs@.len() && 0 <= b < rhs@.len() ==> call_requires(
                        f,
                        (&#[trigger] lhs@[a], &#[trigger] rhs@[b]),
                    ),
                forall|k: int|
                    0 <= k < out@.len() ==> call_ensures(
                        f,
                        (&lhs@[k / width], &rhs@[k % width]),
                        #[trigger] out@[k],
                    ),
            decreases lhs.len() - i,
        {
            let mut j: usize = 0;
            while j < rhs.len()
                invariant
                    i < lhs.len(),
                    j <= rhs.len(),
                    width == rhs@.len(),
                    width > 0,
                    out@.len() == i * width + j,
                    forall|a: int, b: int|
                        0 <= a < lhs@.len() && 0 <= b < rhs@.len() ==> call_requires(
                            f,
                            (&#[trigger] lhs@[a], &#[trigger] rhs@[b]),
                        ),
                    forall|k: int|
                        0 <= k < out@.len() ==> call_ensures(
                            f,
                            (&lhs@[k / width], &rhs@[k % width]),
                            #[trigger] out@[k],
                        ),
                decreases rhs.len() - j,
            {
                let ghost k = out@.len() as int;
                proof {
                    lemma_fundamental_div_mod_converse(k, width, i as int, j as int);
                }
                let item = f(&lhs[i], &rhs[j]);
                out.push(item);
                j += 1;
            }
            assert((i + 1) * width == i * width + width) by (nonlinear_arith);
            i += 1;
        }
        out
    }
}

/// The model of a row or of a part of one: the values by column name.
pub type Row = Map<Seq<char>, Json>;

/// One partial row: for each of its columns, by name, the value it holds.
#[derive(Debug, PartialEq)]
pub struct Fragment {
    /// The columns in the order in which they were set; of two entries with
    /// one name the later one counts.
    pub entries: Vec<(String, JsonValue)>,
}

/// The mapping that a list of entries stands for: a later entry replaces an
/// earlier one of the same name.
pub open spec fn entries_map(entries: Seq<(String, JsonValue)>) -> Map<Seq<char>, Json>
    decreases entries.len(),
{
    if entries.len() == 0 {
        Map::empty()
    } else {
        entries_map(entries.drop_last()).insert(entries.last().0@, entries.last().1@)
    }
}

/// Entries put after others stand for a mapping laid over theirs.
pub proof fn lemma_entries_map_concat(a: Seq<(String, JsonValue)>, b: Seq<(String, JsonValue)>)
    ensures
        entries_map(a + b) == entries_map(a).union_prefer_right(entries_map(b)),
    decreases b.len(),
{
    if b.len() == 0 {
        assert(a + b =~= a);
        assert(entries_map(a).union_prefer_right(entries_map(b)) =~= entries_map(a));
    } else {
        lemma_entries_map_concat(a, b.drop_last());
        assert((a + b).drop_last() =~= a + b.drop_last());
        assert((a + b).last() == b.last());
        assert(entries_map(a + b) =~= entries_map(a).union_prefer_right(entries_map(b)));
    }
}

/// One entry stands for the mapping of its one column.
pub proof fn lemma_entries_map_single(entry: (String, JsonValue))
    ensures
        entries_map(seq![entry]) == Map::<Seq<char>, Json>::empty().insert(entry.0@, entry.1@),
{
    let s = seq![entry];
    assert(s.drop_last() =~= Seq::empty());
    assert(entries_map(s.drop_last()) == Map::<Seq<char>, Json>::empty());
}

impl View for Fragment {
    type V = Map<Seq<char>, Json>;

    open spec fn view(&self) -> Map<Seq<char>, Json> {
        entries_map(self.entries@)
    }
}

impl Fragment {
    /// The fragment without columns.
    pub fn new() -> (r: Fragment)
        ensures
            r@ == Map::<Seq<char>, Json>::empty(),
    {
        Fragment { entries: Vec::new() }
    }

    /// The fragment of one column.
    pub fn single(column: String, value: JsonValue) -> (r: Fragment)
        ensures
            r@ == Map::<Seq<char>, Json>::empty().insert(column@, value@),
    {
        let mut entries: Vec<(String, JsonValue)> = Vec::new();
        entries.push((column, value));
        proof {
            lemma_entries_map_single(entries@[0]);
            assert(entries@ =~= seq![entries@[0]]);
        }
        Fragment { entries }
    }

    /// Sets a column, replacing what it held.
    pub fn insert(&mut self, column: String, value: JsonValue)
        ensures
            final(self)@ == old(self)@.insert(column@, value@),
    {
        let ghost before = self.entries@;
        self.entries.push((column, value));
        assert(self.entries@.drop_last() =~= before);
    }

    /// The value of a column, if the fragment has it.
    pub fn get(&self, column: &String) -> (r: Option<&JsonValue>)
        ensures
            r matches Some(v) ==> self@.contains_key(column@) && self@[column@] == v@,
            r is None ==> !self@.contains_key(column@),
    {
        let mut i: usize = self.entries.len();
        assert(self.entries@.skip(i as int) =~= Seq::empty());
        while i > 0
            invariant
                i <= self.entries.len(),
                !entries_map(self.entries@.skip(i as int)).contains_key(column@),
            decreases i,
        {
            i -= 1;
            proof {
                let all = self.entries@;
                lemma_entries_map_concat(all.take(i as int), all.skip(i as int));
                assert(all.take(i as int) + all.skip(i as int) =~= all);
                lemma_entries_map_concat(seq![all[i as int]], all.skip(i + 1));
                assert(seq![all[i as int]] + all.skip(i + 1) =~= all.skip(i as int));
                lemma_entries_map_single(all[i as int]);
            }
            if self.entries[i].0 == *column {
                return Some(&self.entries[i].1);
            }
        }
        assert(self.entries@.skip(0) =~= self.entries@);
        None
    }

    /// The columns of both fragments; where both have a column, the value
    /// of `later` stands.
    pub fn merged(&self, later: &Fragment) -> (r: Fragment)
        ensures
            r@ == self@.union_prefer_right(later@),
    {
        let mut entries: Vec<(String, JsonValue)> = Vec::new();
        let mut i: usize = 0;
        while i < self.entries.len()
            invariant
                i <= self.entries.len(),
                entries_map(entries@) == entries_map(self.entries@.take(i as int)),
            decreases self.entries.len() - i,
        {
            let ghost before = entries@;
            entries.push((self.entries[i].0.clone(), self.entries[i].1.duplicate()));
            proof {
                assert(entries@.drop_last() =~= before);
                assert(self.entries@.take(i + 1).drop_last() =~= self.entries@.take(i as int));
            }
            i += 1;
        }
        assert(self.entries@.take(i as int) =~= self.entries@);
        let ghost first = entries@;
        let mut k: usize = 0;
        while k < later.entries.len()
            invariant
                k <= later.entries.len(),
                entries_map(entries@) == entries_map(first).union_prefer_right(
                    entries_map(later.entries@.take(k as int)),
                ),
            decreases later.entries.len() - k,
        {
            let ghost before = entries@;
            entries.push((later.entries[k].0.clone(), later.entries[k].1.duplicate()));
            proof {
                assert(entries@.drop_last() =~= before);
                assert(later.entries@.take(k + 1).drop_last() =~= later.entries@.take(k as int));
                assert(entries_map(entries@) =~= entries_map(first).union_prefer_right(
                    entries_map(later.entries@.take(k + 1)),
                ));
            }
            k += 1;
        }
        proof {
            assert(later.entries@.take(0) =~= Seq::empty());
            assert(later.entries@.take(k as int) =~= later.entries@);
        }
        Fragment { entries }
    }
}

/// The mappings of a list of fragments, in order.
pub open spec fn rows_view(rows: Seq<Fragment>) -> Seq<Map<Seq<char>, Json>> {
    Seq::new(rows.len(), |i: int| rows[i]@)
}

/// The mappings of a list of groups of fragments.
pub open spec fn groups_view(groups: Seq<Vec<Fragment>>) -> Seq<Seq<Map<Seq<char>, Json>>> {
    Seq::new(groups.len(), |i: int| rows_view(groups[i]@))
}

/// The product of two groups: every row of `acc` merged with every row of
/// `group`, `acc` varying slowest. An empty group leaves the other as it is.
pub open spec fn join(acc: Seq<Map<Seq<char>, Json>>, group: Seq<Map<Seq<char>, Json>>) -> Seq<
    Map<Seq<char>, Json>,
> {
    if acc.len() == 0 {
        group
    } else if group.len() == 0 {
        acc
    } else {
        Seq::new(
            acc.len() * group.len(),
            |k: int| acc[k / (group.len() as int)].union_prefer_right(group[k % (group.len() as int)]),
        )
    }
}

/// The product of all groups, folded from the left.
pub open spec fn join_all(groups: Seq<Seq<Map<Seq<char>, Json>>>) -> Seq<Map<Seq<char>, Json>>
    decreases groups.len(),
{
    if groups.len() == 0 {
        Seq::empty()
    } else {
        join(join_all(groups.drop_last()), groups.last())
    }
}

/// The Cartesian join of two groups of fragments.
pub fn cross(acc: Vec<Fragment>, group: Vec<Fragment>) -> (out: Vec<Fragment>)
    ensures
        rows_view(out@) == join(rows_view(acc@), rows_view(group@)),
{
    let ghost a = rows_view(acc@);
    let ghost g = rows_view(group@);
    let merge = |l: &Fragment, r: &Fragment| -> (m: Fragment)
        ensures
            m@ == l@.union_prefer_right(r@),
        { l.merged(r) };
    let out = x_vec(merge, acc, group);
    proof {
        if a.len() > 0 && g.len() > 0 {
            assert(rows_view(out@).len() == join(a, g).len());
            assert forall|k: int| 0 <= k < out@.len() implies rows_view(out@)[k] == join(a, g)[k] by {
                let w = g.len() as int;
                assert(0 <= k / w < a.len() && 0 <= k % w < w) by (nonlinear_arith)
                    requires
                        0 <= k < a.len() * w,
                        w > 0,
                ;
                assert(call_ensures(merge, (&acc@[k / w], &group@[k % w]), out@[k]));
            }
        }
        assert(rows_view(out@) =~= join(a, g));
    }
    out
}

/// The Cartesian join of a list of groups: one fragment for each way of
/// taking one fragment from every group that has any, merged in the order
/// of the groups.
pub fn cross_fold(data: Vec<Vec<Fragment>>) -> (out: Vec<Fragment>)
    ensures
        rows_view(out@) == join_all(groups_view(data@)),
{
    let ghost all = groups_view(data@);
    let mut data = data;
    let mut acc: Vec<Fragment> = Vec::new();
    let ghost mut done: int = 0;
    assert(all.take(0) =~= Seq::empty());
    assert(rows_view(acc@) =~= Seq::empty());
    while data.len() > 0
        invariant
            0 <= done,
            done + data@.len() == all.len(),
            groups_view(data@) == all.skip(done),
            rows_view(acc@) == join_all(all.take(done)),
        decreases data@.len(),
    {
        let ghost before = data@;
        let group = data.remove(0);
        proof {
            assert(rows_view(group@) == groups_view(before)[0]);
            assert(all.take(done + 1).drop_last() =~= all.take(done));
            assert(all.take(done + 1).last() == all.skip(done)[0]);
            assert forall|j: int| 0 <= j < data@.len() implies groups_view(data@)[j] == all.skip(
                done + 1,
            )[j] by {
                assert(data@[j] == before[j + 1]);
                assert(groups_view(before)[j + 1] == all.skip(done)[j + 1]);
            }
            assert(groups_view(data@) =~= all.skip(done + 1));
            done = done + 1;
        }
        acc = cross(acc, group);
    }
    assert(all.take(done) =~= all);
    acc
}

/// Whether no group holds a fragment.
pub open spec fn all_empty(groups: Seq<Seq<Row>>) -> bool {
    forall|i: int| 0 <= i < groups.len() ==> (#[trigger] groups[i]).len() == 0
}

/// Whether every group holds at most one fragment.
pub open spec fn all_small(groups: Seq<Seq<Row>>) -> bool {
    forall|i: int| 0 <= i < groups.len() ==> (#[trigger] groups[i]).len() <= 1
}

/// The product of the sizes of the groups that hold a fragment.
pub open spec fn width(groups: Seq<Seq<Row>>) -> nat
    decreases groups.len(),
{
    if groups.len() == 0 {
        1
    } else if groups.last().len() == 0 {
        width(groups.drop_last())
    } else {
        width(groups.drop_last()) * groups.last().len()
    }
}

/// Groups of at most one fragment each have the product one.
pub proof fn lemma_width_small(groups: Seq<Seq<Row>>)
    requires
        all_small(groups),
    ensures
        width(groups) == 1,
    decreases groups.len(),
{
    if groups.len() > 0 {
        assert(groups.last() == groups[groups.len() - 1]);
        assert forall|i: int| 0 <= i < groups.drop_last().len() implies (
        #[trigger] groups.drop_last()[i]).len() <= 1 by {
            assert(groups.drop_last()[i] == groups[i]);
        }
        lemma_width_small(groups.drop_last());
        assert(groups[groups.len() - 1].len() <= 1);
        assert(1 * groups.last().len() == groups.last().len());
    }
}

/// The Cartesian join has no row where no group holds a fragment, and
/// else as many rows as the product of the sizes of the groups that hold
/// one: an empty group counts as one, not as zero.
pub proof fn lemma_join_all_len(groups: Seq<Seq<Row>>)
    ensures
        all_empty(groups) ==> join_all(groups).len() == 0,
        !all_empty(groups) ==> join_all(groups).len() == width(groups),
        width(groups) >= 1,
    decreases groups.len(),
{
    if groups.len() > 0 {
        let front = groups.drop_last();
        let last = groups.last();
        lemma_join_all_len(front);
        assert(last == groups[groups.len() - 1]);
        if all_empty(front) {
            assert forall|i: int| 0 <= i < front.len() implies (#[trigger] front[i]).len() <= 1 by {}
            lemma_width_small(front);
            if last.len() == 0 {
                assert forall|i: int| 0 <= i < groups.len() implies (#[trigger] groups[i]).len()
                    == 0 by {
                    if i < front.len() {
                        assert(front[i] == groups[i]);
                    }
                }
            } else {
                assert(width(groups) == 1 * last.len());
            }
        } else {
            let i = choose|i: int| 0 <= i < front.len() && (#[trigger] front[i]).len() != 0;
            assert(groups[i] == front[i]);
            assert(!all_empty(groups));
        }
        if all_empty(groups) {
            assert forall|i: int| 0 <= i < front.len() implies (#[trigger] front[i]).len() == 0 by {
                assert(front[i] == groups[i]);
            }
        }
        assert(width(front) * last.len() >= 1 || last.len() == 0) by (nonlinear_arith)
            requires
                width(front) >= 1,
        ;
    }
}

/// The fragments of groups of at most one fragment each, laid over one
/// another in the order of the groups: where two hold a column, the later
/// one shows.
pub open spec fn overlay(groups: Seq<Seq<Row>>) -> Row
    decreases groups.len(),
{
    if groups.len() == 0 {
        Map::empty()
    } else if groups.last().len() == 0 {
        overlay(groups.drop_last())
    } else {
        overlay(groups.drop_last()).union_prefer_right(groups.last()[0])
    }
}

/// Where every group holds at most one fragment, the join has at most one
/// row, and it has one as soon as some group holds a fragment: the row
/// that holds every column of every fragment, and nothing else.
pub proof fn lemma_small_groups_give_one_row(groups: Seq<Seq<Row>>)
    requires
        all_small(groups),
    ensures
        join_all(groups).len() == (if all_empty(groups) {
            0nat
        } else {
            1nat
        }),
        !all_empty(groups) ==> join_all(groups)[0] == overlay(groups),
        all_empty(groups) ==> overlay(groups) == Map::<Seq<char>, Json>::empty(),
    decreases groups.len(),
{
    lemma_join_all_len(groups);
    lemma_width_small(groups);
    if groups.len() > 0 {
        let front = groups.drop_last();
        let last = groups.last();
        assert(last == groups[groups.len() - 1]);
        assert forall|i: int| 0 <= i < front.len() implies (#[trigger] front[i]).len() <= 1 by {
            assert(front[i] == groups[i]);
        }
        lemma_small_groups_give_one_row(front);
        if all_empty(groups) {
            assert forall|i: int| 0 <= i < front.len() implies (#[trigger] front[i]).len() == 0 by {
                assert(front[i] == groups[i]);
            }
        } else if last.len() == 1 {
            if all_empty(front) {
                assert(overlay(groups) =~= last[0]);
            } else {
                assert(0int / 1 == 0 && 0int % 1 == 0);
                assert(1 * 1 == 1);
                assert(join_all(groups)[0] == join_all(front)[0].union_prefer_right(last[0]));
            }
        } else {
            if all_empty(front) {
                assert forall|i: int| 0 <= i < groups.len() implies (#[trigger] groups[i]).len()
                    == 0 by {
                    if i < front.len() {
                        assert(front[i] == groups[i]);
                    }
                }
            }
        }
    }
}

/// Whether every group but the one at `k` holds at most one fragment.
pub open spec fn small_but(groups: Seq<Seq<Row>>, k: int) -> bool {
    forall|i: int| 0 <= i < groups.len() && i != k ==> (#[trigger] groups[i]).len() <= 1
}

/// Whether every group but those at `k` and `l` holds at most one fragment.
pub open spec fn small_but_two(groups: Seq<Seq<Row>>, k: int, l: int) -> bool {
    forall|i: int| 0 <= i < groups.len() && i != k && i != l ==> (#[trigger] groups[i]).len() <= 1
}

/// One group of `n` fragments among groups of at most one fragment each
/// gives `n` rows. Row `i` is the one row that the groups would give with
/// the `i`-th fragment alone in that group: the rows differ in what that
/// fragment holds and in nothing else.
pub proof fn lemma_one_large_group(groups: Seq<Seq<Row>>, k: int, i: int)
    requires
        0 <= k < groups.len(),
        small_but(groups, k),
        0 <= i < groups[k].len(),
    ensures
        join_all(groups).len() == groups[k].len(),
        join_all(groups.update(k, seq![groups[k][i]])).len() == 1,
        join_all(groups)[i] == join_all(groups.update(k, seq![groups[k][i]]))[0],
    decreases groups.len(),
{
    let n = groups[k].len() as int;
    let front = groups.drop_last();
    let last = groups.last();
    let picked = groups.update(k, seq![groups[k][i]]);
    assert(last == groups[groups.len() - 1]);
    if k == groups.len() - 1 {
        assert(picked.drop_last() =~= front);
        assert(picked.last() == seq![groups[k][i]]);
        assert forall|j: int| 0 <= j < front.len() implies (#[trigger] front[j]).len() <= 1 by {
            assert(front[j] == groups[j]);
        }
        lemma_small_groups_give_one_row(front);
        let acc = join_all(front);
        if acc.len() == 1 {
            assert(i / n == 0 && i % n == i) by (nonlinear_arith)
                requires
                    0 <= i < n,
            ;
            assert(1 * n == n);
            assert(join_all(groups)[i] == acc[0].union_prefer_right(last[i]));
        }
    } else {
        assert(picked.drop_last() =~= front.update(k, seq![groups[k][i]]));
        assert(picked.last() == last);
        assert(front[k] == groups[k]);
        assert forall|j: int| 0 <= j < front.len() && j != k implies (#[trigger] front[j]).len()
            <= 1 by {
            assert(front[j] == groups[j]);
        }
        lemma_one_large_group(front, k, i);
        let acc = join_all(front);
        if last.len() == 1 {
            assert(n * 1 == n);
            assert(i / 1 == i && i % 1 == 0);
        }
    }
}

/// Two groups of `m` and `n` fragments among groups of at most one
/// fragment each give `m * n` rows.
pub proof fn lemma_two_large_groups(groups: Seq<Seq<Row>>, k: int, l: int)
    requires
        0 <= k < l < groups.len(),
        small_but_two(groups, k, l),
        groups[k].len() > 0,
        groups[l].len() > 0,
    ensures
        join_all(groups).len() == groups[k].len() * groups[l].len(),
    decreases groups.len(),
{
    let front = groups.drop_last();
    let last = groups.last();
    assert(last == groups[groups.len() - 1]);
    assert(front[k] == groups[k]);
    if l == groups.len() - 1 {
        assert forall|j: int| 0 <= j < front.len() && j != k implies (#[trigger] front[j]).len()
            <= 1 by {
            assert(front[j] == groups[j]);
        }
        lemma_one_large_group(front, k, 0);
    } else {
        assert(front[l] == groups[l]);
        assert forall|j: int| 0 <= j < front.len() && j != k && j != l implies (
        #[trigger] front[j]).len() <= 1 by {
            assert(front[j] == groups[j]);
        }
        lemma_two_large_groups(front, k, l);
        let c = join_all(front).len();
        assert(c > 0) by (nonlinear_arith)
            requires
                c == groups[k].len() * groups[l].len(),
                groups[k].len() > 0,
                groups[l].len() > 0,
        ;
        if last.len() == 1 {
            assert(c * 1 == c);
        }
    }
}

} // verus!
