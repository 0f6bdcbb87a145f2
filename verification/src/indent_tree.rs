//! A tree read off a flat list of rows that each carry an indent, as the
//! import review draws it: a row's parent is the nearest row before it with a
//! smaller indent, its subtree is itself and every deeper row after it until
//! the indent returns, and a collapsed row hides that subtree below it.

use vstd::prelude::*;

verus! {

/// A row of a reviewed import plan, named by its place in the plan; the
/// place never changes while the plan is on screen.
#[derive(Debug, Clone, Copy, PartialEq, Eq, Hash, PartialOrd, Ord, Structural)]
pub struct PlanRowKey(pub u32);

/// The position of the nearest row before `at` with an indent below `limit`,
/// looking at rows before `j` only; -1 when there is none.
pub open spec fn nearest_below(ind: Seq<i64>, j: int, limit: i64) -> int
    decreases j,
{
    if j <= 0 {
        -1
    } else if ind[j - 1] < limit {
        j - 1
    } else {
        nearest_below(ind, j - 1, limit)
    }
}

/// The parent of the row at `at`: the nearest row before it with a smaller
/// indent.
pub open spec fn parent_spec(ind: Seq<i64>, at: int) -> Option<usize> {
    let p = nearest_below(ind, at, ind[at]);
    if p >= 0 {
        Some(p as usize)
    } else {
        None
    }
}

/// Where the subtree of the row at `at` ends: the first row after it, from
/// `j` on, whose indent is not deeper than its own; the end of the list when
/// there is none.
pub open spec fn subtree_end(ind: Seq<i64>, at: int, j: int) -> int
    decreases ind.len() - j,
{
    if j >= ind.len() {
        ind.len() as int
    } else if ind[j] <= ind[at] {
        j
    } else {
        subtree_end(ind, at, j + 1)
    }
}

/// The rows of the subtree of `at` between `from` and `to`, one level deeper
/// than it: its children there.
pub open spec fn children_between(ind: Seq<i64>, at: int, from: int, to: int) -> Seq<usize>
    decreases to - from,
{
    if to <= from {
        Seq::empty()
    } else {
        let before = children_between(ind, at, from, to - 1);
        if ind[to - 1] == ind[at] + 1 {
            before.push((to - 1) as usize)
        } else {
            before
        }
    }
}

/// The ancestors of a row, nearest first, found scanning back from `j` with
/// the indent that a further ancestor must be below.
pub open spec fn ancestors_from(ind: Seq<i64>, j: int, ceiling: i64) -> Seq<usize>
    decreases j,
{
    if j <= 0 {
        Seq::empty()
    } else if ind[j - 1] < ceiling {
        seq![(j - 1) as usize] + ancestors_from(ind, j - 1, ind[j - 1])
    } else {
        ancestors_from(ind, j - 1, ceiling)
    }
}

/// The rows shown among the first `n`, with collapse honoured, and the indent
/// at or below which rows show again (none when nothing is hiding anything).
pub open spec fn shown(ind: Seq<i64>, collapsed: Seq<bool>, n: int) -> (Seq<usize>, Option<i64>)
    decreases n,
{
    if n <= 0 {
        (Seq::empty(), None)
    } else {
        let (vis, hidden) = shown(ind, collapsed, n - 1);
        let k = n - 1;
        if hidden is Some && ind[k] > hidden.unwrap() {
            (vis, hidden)
        } else {
            (vis.push(k as usize), if collapsed[k] {
                Some(ind[k])
            } else {
                None
            })
        }
    }
}

/// The parent of the row at `at`, if it has one; none for a row not in the
/// plan.
pub fn parent_of(ind: &[i64], at: usize) -> (p: Option<usize>)
    ensures
        at >= ind@.len() ==> p is None,
        at < ind@.len() ==> p == parent_spec(ind@, at as int),
{
    if at >= ind.len() {
        return None;
    }
    let limit = ind[at];
    let mut j: usize = at;
    while j > 0
        invariant
            0 <= j <= at < ind@.len(),
            limit == ind@[at as int],
            nearest_below(ind@, j as int, limit) == nearest_below(ind@, at as int, limit),
        decreases j,
    {
        if ind[j - 1] < limit {
            return Some(j - 1);
        }
        j = j - 1;
    }
    None
}

/// Where the subtree of the row at `at` ends: the first later row not deeper
/// than it, or the end of the list; none for a row not in the plan.
pub fn subtree_end_of(ind: &[i64], at: usize) -> (end: Option<usize>)
    ensures
        at >= ind@.len() ==> end is None,
        at < ind@.len() ==> (end matches Some(e) && e == subtree_end(ind@, at as int, at as int + 1)
            && at < e <= ind@.len() && forall|k: int| at < k < e ==> ind@[k] > ind@[at as int]),
{
    if at >= ind.len() {
        return None;
    }
    let n = ind.len();
    let mut j: usize = at + 1;
    while j < n && ind[j] > ind[at]
        invariant
            at < j <= ind@.len(),
            n == ind@.len(),
            subtree_end(ind@, at as int, j as int) == subtree_end(ind@, at as int, at as int + 1),
            forall|k: int| at < k < j ==> ind@[k] > ind@[at as int],
        decreases ind@.len() - j,
    {
        j = j + 1;
    }
    Some(j)
}

/// The subtree of the row at `at`: itself and every deeper row after it
/// until the indent returns, in order; nothing for a row not in the plan.
pub fn subtree(ind: &[i64], at: usize) -> (rows: Vec<usize>)
    ensures
        at >= ind@.len() ==> rows@.len() == 0,
        at < ind@.len() ==> rows@.len() == subtree_end(ind@, at as int, at as int + 1) - at,
        forall|k: int| 0 <= k < rows@.len() ==> rows@[k] == at + k,
{
    let mut rows: Vec<usize> = Vec::new();
    let end = match subtree_end_of(ind, at) {
        Some(e) => e,
        None => {
            return rows;
        },
    };
    let mut k: usize = at;
    while k < end
        invariant
            at <= k <= end <= ind@.len(),
            rows@.len() == k - at,
            forall|m: int| 0 <= m < rows@.len() ==> rows@[m] == at + m,
        decreases end - k,
    {
        rows.push(k);
        k = k + 1;
    }
    rows
}

/// The children of the row at `at`: the rows of its subtree one level deeper
/// than it, in order; none for a row not in the plan.
pub fn child_rows(ind: &[i64], at: usize) -> (rows: Vec<usize>)
    requires
        at < ind@.len() ==> ind@[at as int] < i64::MAX,
    ensures
        at >= ind@.len() ==> rows@.len() == 0,
        at < ind@.len() ==> rows@ == children_between(
            ind@,
            at as int,
            at as int + 1,
            subtree_end(ind@, at as int, at as int + 1),
        ),
{
    let mut rows: Vec<usize> = Vec::new();
    let end = match subtree_end_of(ind, at) {
        Some(e) => e,
        None => {
            return rows;
        },
    };
    let mut k: usize = at + 1;
    while k < end
        invariant
            at < k <= end <= ind@.len(),
            ind@[at as int] < i64::MAX,
            rows@ == children_between(ind@, at as int, at as int + 1, k as int),
        decreases end - k,
    {
        if ind[k] == ind[at] + 1 {
            rows.push(k);
        }
        k = k + 1;
    }
    rows
}

/// Whether the row at `at` has children shown under it: the next row is
/// deeper; never for a row not in the plan.
pub fn has_children(ind: &[i64], at: usize) -> (b: bool)
    ensures
        b == (at + 1 < ind@.len() && ind@[at + 1] > ind@[at as int]),
{
    at < ind.len() && at + 1 < ind.len() && ind[at + 1] > ind[at]
}

/// Every ancestor of the row at `at`, nearest first; none for a row not in
/// the plan.
pub fn ancestors(ind: &[i64], at: usize) -> (rows: Vec<usize>)
    ensures
        at >= ind@.len() ==> rows@.len() == 0,
        at < ind@.len() ==> rows@ == ancestors_from(ind@, at as int, ind@[at as int]),
{
    let mut rows: Vec<usize> = Vec::new();
    if at >= ind.len() {
        return rows;
    }
    let mut ceiling = ind[at];
    let mut j: usize = at;
    while j > 0
        invariant
            0 <= j <= at < ind@.len(),
            rows@ + ancestors_from(ind@, j as int, ceiling) == ancestors_from(ind@, at as int, ind@[at as int]),
        decreases j,
    {
        if ind[j - 1] < ceiling {
            let ghost r0 = rows@;
            rows.push(j - 1);
            assert(rows@ + ancestors_from(ind@, j - 1, ind@[j - 1]) == r0 + (seq![(j - 1) as usize]
                + ancestors_from(ind@, j - 1, ind@[j - 1])));
            ceiling = ind[j - 1];
        }
        j = j - 1;
    }
    assert(rows@ + ancestors_from(ind@, 0, ceiling) == rows@);
    rows
}

/// The rows shown, in order, when the rows marked in `collapsed` are
/// collapsed: a collapsed row shows, and the deeper rows after it do not
/// until one comes back to its indent or above.
pub fn visible_rows(ind: &[i64], collapsed: &[bool]) -> (rows: Vec<usize>)
    requires
        collapsed@.len() == ind@.len(),
    ensures
        rows@ == shown(ind@, collapsed@, ind@.len() as int).0,
{
    let mut rows: Vec<usize> = Vec::new();
    let mut hidden_below: Option<i64> = None;
    let mut i: usize = 0;
    while i < ind.len()
        invariant
            0 <= i <= ind@.len(),
            collapsed@.len() == ind@.len(),
            (rows@, hidden_below) == shown(ind@, collapsed@, i as int),
        decreases ind@.len() - i,
    {
        let skip = match hidden_below {
            Some(limit) => ind[i] > limit,
            None => false,
        };
        if !skip {
            rows.push(i);
            hidden_below = if collapsed[i] {
                Some(ind[i])
            } else {
                None
            };
        }
        i = i + 1;
    }
    rows
}

/// The depth a row is drawn at: its indent, never below zero.
pub fn depth_of(indent: i64) -> (d: usize)
    ensures
        d == if indent > 0 {
            indent as usize
        } else {
            0
        },
{
    if indent > 0 {
        indent as usize
    } else {
        0
    }
}


proof fn lemma_subtree_end(ind: Seq<i64>, at: int, j: int)
    requires
        0 <= at < ind.len(),
        at < j <= ind.len(),
    ensures
        j <= subtree_end(ind, at, j) <= ind.len(),
        forall|m: int| j <= m < subtree_end(ind, at, j) ==> ind[m] > ind[at],
        subtree_end(ind, at, j) < ind.len() ==> ind[subtree_end(ind, at, j)] <= ind[at],
    decreases ind.len() - j,
{
    if j < ind.len() && ind[j] > ind[at] {
        lemma_subtree_end(ind, at, j + 1);
    }
}

proof fn lemma_children_between(ind: Seq<i64>, at: int, from: int, to: int)
    requires
        0 <= from,
        to <= ind.len(),
        ind.len() <= usize::MAX,
    ensures
        forall|k: int| 0 <= k < children_between(ind, at, from, to).len() ==> {
            let c = #[trigger] children_between(ind, at, from, to)[k];
            from <= c < to && ind[c as int] == ind[at] + 1
        },
    decreases to - from,
{
    if to > from {
        lemma_children_between(ind, at, from, to - 1);
        let before = children_between(ind, at, from, to - 1);
        let now = children_between(ind, at, from, to);
        assert forall|k: int| 0 <= k < now.len() implies {
            let c = #[trigger] now[k];
            from <= c < to && ind[c as int] == ind[at] + 1
        } by {
            if k < before.len() {
                assert(now[k] == before[k]);
            }
        }
    }
}

proof fn lemma_nearest_is(ind: Seq<i64>, at: int, k: int, limit: i64)
    requires
        0 <= at < k <= ind.len(),
        ind[at] < limit,
        forall|m: int| at < m < k ==> ind[m] >= limit,
    ensures
        nearest_below(ind, k, limit) == at,
    decreases k - at,
{
    if k - 1 > at {
        lemma_nearest_is(ind, at, k - 1, limit);
    }
}

/// Parent and children agree: every child of a row names that row as its
/// parent.
pub proof fn law_children_name_their_parent(ind: Seq<i64>, at: int, k: int)
    requires
        0 <= at < ind.len(),
        ind.len() <= usize::MAX,
        ind[at] < i64::MAX,
        0 <= k < children_between(ind, at, at + 1, subtree_end(ind, at, at + 1)).len(),
    ensures
        parent_spec(ind, children_between(ind, at, at + 1, subtree_end(ind, at, at + 1))[k] as int) == Some(
            at as usize,
        ),
{
    let end = subtree_end(ind, at, at + 1);
    lemma_subtree_end(ind, at, at + 1);
    lemma_children_between(ind, at, at + 1, end);
    let c = children_between(ind, at, at + 1, end)[k] as int;
    lemma_nearest_is(ind, at, c, ind[c]);
}


proof fn lemma_hidden_run(ind: Seq<i64>, collapsed: Seq<bool>, at: int, j: int)
    requires
        collapsed.len() == ind.len(),
        0 <= at < ind.len(),
        at + 1 <= j <= subtree_end(ind, at, at + 1),
        shown(ind, collapsed, at + 1).1 == Some(ind[at]),
    ensures
        shown(ind, collapsed, j) == shown(ind, collapsed, at + 1),
    decreases j - at,
{
    lemma_subtree_end(ind, at, at + 1);
    if j > at + 1 {
        lemma_hidden_run(ind, collapsed, at, j - 1);
        assert(ind[j - 1] > ind[at]);
    }
}

/// Collapsing a row hides exactly its subtree: once a shown row is collapsed,
/// none of the deeper rows after it shows, and the row that ends its subtree
/// (the next one back at its indent or above) shows again.
pub proof fn law_collapse_hides_exactly_the_subtree(ind: Seq<i64>, collapsed: Seq<bool>, at: int)
    requires
        collapsed.len() == ind.len(),
        0 <= at < ind.len(),
        collapsed[at],
        shown(ind, collapsed, at + 1).0 == shown(ind, collapsed, at).0.push(at as usize),
    ensures
        shown(ind, collapsed, subtree_end(ind, at, at + 1)).0 == shown(ind, collapsed, at + 1).0,
        subtree_end(ind, at, at + 1) < ind.len() ==> shown(ind, collapsed, subtree_end(ind, at, at + 1) + 1).0
            == shown(ind, collapsed, subtree_end(ind, at, at + 1)).0.push(subtree_end(ind, at, at + 1) as usize),
{
    let end = subtree_end(ind, at, at + 1);
    lemma_subtree_end(ind, at, at + 1);
    let prev = shown(ind, collapsed, at);
    if prev.1 is Some && ind[at] > prev.1.unwrap() {
        assert(shown(ind, collapsed, at + 1).0 == prev.0);
        assert(prev.0.push(at as usize).len() == prev.0.len() + 1);
    }
    assert(shown(ind, collapsed, at + 1).1 == Some(ind[at]));
    lemma_hidden_run(ind, collapsed, at, end);
}


/// Every row is shown until something is collapsed.
pub proof fn law_nothing_collapsed_shows_everything(ind: Seq<i64>, collapsed: Seq<bool>, n: int)
    requires
        collapsed.len() == ind.len(),
        0 <= n <= ind.len(),
        ind.len() <= usize::MAX,
        forall|k: int| 0 <= k < collapsed.len() ==> !#[trigger] collapsed[k],
    ensures
        shown(ind, collapsed, n).0 == Seq::new(n as nat, |k: int| k as usize),
        shown(ind, collapsed, n).1 is None,
    decreases n,
{
    if n > 0 {
        law_nothing_collapsed_shows_everything(ind, collapsed, n - 1);
        assert(!collapsed[n - 1]);
        assert(Seq::new(n as nat, |k: int| k as usize) =~= Seq::new((n - 1) as nat, |k: int| k as usize).push(
            (n - 1) as usize,
        ));
    } else {
        assert(Seq::new(0nat, |k: int| k as usize) =~= Seq::<usize>::empty());
    }
}

} // verus!
