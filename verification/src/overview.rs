//! The Overview table's own decisions: which rows of the work's flat item
//! stream belong to a container, how word and comment totals fold up the tree,
//! and how a column sorts.

use vstd::prelude::*;

verus! {

/// Column ids, as the table names them.
pub const COL_TITLE: &'static str = "title";
pub const COL_TYPE: &'static str = "type";
pub const COL_LABEL: &'static str = "label";
pub const COL_OWN_WORDS: &'static str = "own_words";
pub const COL_TOTAL_WORDS: &'static str = "total_words";
pub const COL_OPEN_COMMENTS: &'static str = "open_comments";
pub const COL_TOTAL_COMMENTS: &'static str = "total_comments";
pub const COL_TAGS: &'static str = "tags";
pub const COL_GOAL: &'static str = "goal";

/// Whether a binder item is a folder or a leaf item.
#[derive(Debug, Clone, Copy, PartialEq, Eq, Structural)]
pub enum BinderItemRole {
    Folder,
    Item,
}

/// What a binder item is within the manuscript.
#[derive(Debug, Clone, Copy, PartialEq, Eq, Structural)]
pub enum BinderItemSubRole {
    Unassigned,
    Book,
    BookBegin,
    BookEnd,
    Part,
    ChapterScene,
    Scene,
    Note,
    Text,
}

/// Structural depth-rank of a `(role, sub_role)`, outermost first.
pub open spec fn type_rank_spec(role: BinderItemRole, sub_role: BinderItemSubRole) -> u8 {
    match (role, sub_role) {
        (_, BinderItemSubRole::Book) => 0,
        (_, BinderItemSubRole::BookBegin) => 0,
        (_, BinderItemSubRole::Part) => 1,
        (_, BinderItemSubRole::ChapterScene) => 2,
        (_, BinderItemSubRole::Scene) => 3,
        (BinderItemRole::Folder, BinderItemSubRole::Note) => 4,
        (BinderItemRole::Item, BinderItemSubRole::Note) => 5,
        (_, BinderItemSubRole::Text) => 6,
        (_, BinderItemSubRole::BookEnd) => 7,
        (BinderItemRole::Folder, BinderItemSubRole::Unassigned) => 8,
        _ => 9,
    }
}

/// The structural rank the Type column sorts by: books, parts, chapters,
/// scenes, note folders, notes, text, book ends, plain folders, the rest.
pub fn type_rank(role: BinderItemRole, sub_role: BinderItemSubRole) -> (r: u8)
    ensures
        r == type_rank_spec(role, sub_role),
{
    match sub_role {
        BinderItemSubRole::Book | BinderItemSubRole::BookBegin => 0,
        BinderItemSubRole::Part => 1,
        BinderItemSubRole::ChapterScene => 2,
        BinderItemSubRole::Scene => 3,
        BinderItemSubRole::Note => match role {
            BinderItemRole::Folder => 4,
            BinderItemRole::Item => 5,
        },
        BinderItemSubRole::Text => 6,
        BinderItemSubRole::BookEnd => 7,
        BinderItemSubRole::Unassigned => match role {
            BinderItemRole::Folder => 8,
            BinderItemRole::Item => 9,
        },
    }
}

// ── the container's slice of the flat stream ─────────────────────────────────

/// Where a container sits in the work's flat item stream, and what belongs to it.
#[derive(Debug, PartialEq, Eq)]
pub enum Subtree {
    /// No row in the stream has this id.
    ContainerGone,
    /// The container's descendants (possibly none), and its own indent to rebase from.
    Found { rows: Vec<(u64, u64, i64)>, base: i64 },
}

/// The first position of a row with this id in the `(binder, id, indent)`
/// stream, or -1.
pub open spec fn first_pos(flat: Seq<(u64, u64, i64)>, id: u64) -> int
    decreases flat.len(),
{
    if flat.len() == 0 {
        -1
    } else if flat[0].1 == id {
        0
    } else {
        let r = first_pos(flat.drop_first(), id);
        if r < 0 {
            -1
        } else {
            r + 1
        }
    }
}

/// Whether the row at `k` still belongs under a container of indent `base` in
/// binder `binder`: deeper than it, and in the same binder.
pub open spec fn inside(row: (u64, u64, i64), base: i64, binder: u64) -> bool {
    row.2 > base && row.0 == binder
}

/// Where the container at `pos` stops owning rows: the first later row that is
/// not inside it, or the end of the stream.
pub open spec fn slice_end(flat: Seq<(u64, u64, i64)>, pos: int) -> int
    decreases flat.len() - pos,
{
    slice_end_from(flat, pos, pos + 1)
}

/// The first position from `k` on that is not inside the container at `pos`.
pub open spec fn slice_end_from(flat: Seq<(u64, u64, i64)>, pos: int, k: int) -> int
    decreases flat.len() - k,
{
    if k >= flat.len() || k < 0 || pos < 0 || pos >= flat.len() {
        if k < flat.len() {
            k
        } else {
            flat.len() as int
        }
    } else if !inside(flat[k], flat[pos].2, flat[pos].0) {
        k
    } else {
        slice_end_from(flat, pos, k + 1)
    }
}

proof fn lemma_first_pos(flat: Seq<(u64, u64, i64)>, id: u64, j: int)
    requires
        0 <= j <= flat.len(),
        forall|k: int| 0 <= k < j ==> (#[trigger] flat[k]).1 != id,
    ensures
        j < flat.len() && flat[j].1 == id ==> first_pos(flat, id) == j,
        j == flat.len() ==> first_pos(flat, id) == -1,
    decreases j,
{
    if j > 0 {
        assert forall|k: int| 0 <= k < j - 1 implies (#[trigger] flat.drop_first()[k]).1 != id by {
            assert(flat.drop_first()[k] == flat[k + 1]);
        }
        lemma_first_pos(flat.drop_first(), id, j - 1);
    } else if flat.len() == 0 {
    }
}

proof fn lemma_first_pos_absent(flat: Seq<(u64, u64, i64)>, id: u64)
    requires
        forall|k: int| 0 <= k < flat.len() ==> (#[trigger] flat[k]).1 != id,
    ensures
        first_pos(flat, id) == -1,
    decreases flat.len(),
{
    if flat.len() > 0 {
        assert forall|k: int| 0 <= k < flat.len() - 1 implies (#[trigger] flat.drop_first()[k]).1
            != id by {
            assert(flat.drop_first()[k] == flat[k + 1]);
        }
        lemma_first_pos_absent(flat.drop_first(), id);
    }
}

/// The contiguous subtree of `container_id` in the `(binder, id, indent)`
/// stream: every row after it whose indent stays deeper than its own, stopping
/// at the first row that returns to its level or shallower, or that belongs to
/// another binder. The container's own row is not included.
pub fn subtree_of(flat: &[(u64, u64, i64)], container_id: u64) -> (r: Subtree)
    ensures
        first_pos(flat@, container_id) < 0 <==> r == Subtree::ContainerGone,
        match r {
            Subtree::ContainerGone => true,
            Subtree::Found { rows, base } => {
                let pos = first_pos(flat@, container_id);
                &&& 0 <= pos < flat@.len()
                &&& base == flat@[pos].2
                &&& rows@ == flat@.subrange(pos + 1, slice_end(flat@, pos))
            },
        },
{
    let mut pos: usize = 0;
    while pos < flat.len() && flat[pos].1 != container_id
        invariant
            0 <= pos <= flat@.len(),
            forall|k: int| 0 <= k < pos ==> (#[trigger] flat@[k]).1 != container_id,
        decreases flat@.len() - pos,
    {
        pos = pos + 1;
    }
    proof {
        lemma_first_pos(flat@, container_id, pos as int);
    }
    if pos == flat.len() {
        return Subtree::ContainerGone;
    }
    let base = flat[pos].2;
    let binder = flat[pos].0;
    let mut rows: Vec<(u64, u64, i64)> = Vec::new();
    let mut k: usize = pos + 1;
    assert(slice_end(flat@, pos as int) == slice_end_from(flat@, pos as int, k as int));
    while k < flat.len() && flat[k].2 > base && flat[k].0 == binder
        invariant
            pos < k <= flat@.len(),
            pos < flat@.len(),
            base == flat@[pos as int].2,
            binder == flat@[pos as int].0,
            slice_end(flat@, pos as int) == slice_end_from(flat@, pos as int, k as int),
            rows@ == flat@.subrange(pos + 1, k as int),
        decreases flat@.len() - k,
    {
        rows.push(flat[k]);
        k = k + 1;
    }
    Subtree::Found { rows, base }
}


// ── rows and their totals ────────────────────────────────────────────────────

/// One row of the Overview table: a single binder item in the container's subtree.
#[derive(Debug, PartialEq)]
pub struct OverviewRow {
    /// The live store id.
    pub item_id: u64,
    /// The durable identity.
    pub uid: u128,
    pub role: BinderItemRole,
    pub sub_role: BinderItemSubRole,
    pub title: String,
    /// The writer's own note under the title.
    pub label: String,
    /// Words of this row's own prose, or `None` when it carries none.
    pub own_words: Option<usize>,
    /// This row's manuscript words plus every descendant's.
    pub total_words: usize,
    /// The item's tags, by id.
    pub tags: Vec<u64>,
    /// The chapter or part ordinal this row carries in the book.
    pub number: Option<usize>,
    /// What to call this row when it has no title of its own.
    pub fallback_label: Option<String>,
    /// Whether this row reaches the exported book.
    pub is_exportable: bool,
    /// What this row contributes to a manuscript total.
    pub manuscript_words: usize,
    /// This row's target in the project's unit (`0` = none).
    pub goal: i64,
    /// Open comment threads anchored to this row's own content.
    pub own_comments: usize,
    /// This row's own open threads plus every descendant's.
    pub total_comments: usize,
}

impl Default for OverviewRow {
    fn default() -> (r: OverviewRow)
        ensures
            r.item_id == 0 && r.uid == 0 && r.title@.len() == 0 && r.label@.len() == 0
                && r.own_words.is_none() && r.total_words == 0 && r.tags@.len() == 0
                && r.number.is_none() && r.fallback_label.is_none() && !r.is_exportable
                && r.manuscript_words == 0 && r.goal == 0 && r.own_comments == 0
                && r.total_comments == 0,
    {
        OverviewRow {
            item_id: 0,
            uid: 0,
            role: BinderItemRole::Folder,
            sub_role: BinderItemSubRole::Unassigned,
            title: String::new(),
            label: String::new(),
            own_words: None,
            total_words: 0,
            tags: Vec::new(),
            number: None,
            fallback_label: None,
            is_exportable: false,
            manuscript_words: 0,
            goal: 0,
            own_comments: 0,
            total_comments: 0,
        }
    }
}

/// A row of the tree: its key, its depth below the container and the row itself.
#[derive(Debug, PartialEq)]
pub struct TreeRow {
    pub key: u128,
    pub depth: usize,
    pub item: OverviewRow,
}

impl TreeRow {
    /// A row at `depth`.
    pub fn new(key: u128, item: OverviewRow, depth: usize) -> (r: TreeRow)
        ensures
            r.key == key && r.item == item && r.depth == depth,
    {
        TreeRow { key, depth, item }
    }
}

/// Where the subtree of row `i` ends: the first later row at its depth or
/// shallower, or the end.
pub open spec fn sub_end(rows: Seq<TreeRow>, i: int) -> int {
    sub_end_from(rows, i, i + 1)
}

/// The first position from `k` on whose row is at row `i`'s depth or shallower.
pub open spec fn sub_end_from(rows: Seq<TreeRow>, i: int, k: int) -> int
    decreases rows.len() - k,
{
    if k >= rows.len() || k < 0 || i < 0 || i >= rows.len() {
        if k < rows.len() && k >= 0 {
            k
        } else {
            rows.len() as int
        }
    } else if rows[k].depth <= rows[i].depth {
        k
    } else {
        sub_end_from(rows, i, k + 1)
    }
}

/// The manuscript words of the rows in `[a, b)`.
pub open spec fn sum_words(rows: Seq<TreeRow>, a: int, b: int) -> nat
    decreases b - a,
{
    if a >= b || b > rows.len() || a < 0 {
        0
    } else {
        sum_words(rows, a, b - 1) + (rows[b - 1].item.manuscript_words as nat)
    }
}

/// The own comments of the rows in `[a, b)`.
pub open spec fn sum_comments(rows: Seq<TreeRow>, a: int, b: int) -> nat
    decreases b - a,
{
    if a >= b || b > rows.len() || a < 0 {
        0
    } else {
        sum_comments(rows, a, b - 1) + (rows[b - 1].item.own_comments as nat)
    }
}

proof fn lemma_sums_split(rows: Seq<TreeRow>, a: int, b: int, c: int)
    requires
        0 <= a <= b <= c <= rows.len(),
    ensures
        sum_words(rows, a, c) == sum_words(rows, a, b) + sum_words(rows, b, c),
        sum_comments(rows, a, c) == sum_comments(rows, a, b) + sum_comments(rows, b, c),
    decreases c - b,
{
    if b < c {
        lemma_sums_split(rows, a, b, c - 1);
    }
}

proof fn lemma_sub_end_bounds(rows: Seq<TreeRow>, i: int, k: int)
    requires
        0 <= i < rows.len(),
        i < k <= rows.len(),
    ensures
        k <= sub_end_from(rows, i, k) <= rows.len(),
        forall|j: int| k <= j < sub_end_from(rows, i, k) ==> (#[trigger] rows[j]).depth
            > rows[i].depth,
        sub_end_from(rows, i, k) < rows.len() ==> rows[sub_end_from(rows, i, k)].depth
            <= rows[i].depth,
    decreases rows.len() - k,
{
    if k < rows.len() && rows[k].depth > rows[i].depth {
        lemma_sub_end_bounds(rows, i, k + 1);
    }
}

proof fn lemma_sub_end_is(rows: Seq<TreeRow>, i: int, k: int, c: int)
    requires
        0 <= i < rows.len(),
        i < k <= c <= rows.len(),
        forall|j: int| k <= j < c ==> (#[trigger] rows[j]).depth > rows[i].depth,
        c < rows.len() ==> rows[c].depth <= rows[i].depth,
    ensures
        sub_end_from(rows, i, k) == c,
    decreases c - k,
{
    if k < c {
        lemma_sub_end_is(rows, i, k + 1, c);
    }
}

/// What the fold's stack holds for a root: its depth and its subtree's totals.
pub open spec fn root_entry(rows: Seq<TreeRow>, r: int) -> (usize, usize, usize) {
    (
        rows[r].depth,
        sum_words(rows, r, sub_end(rows, r)) as usize,
        sum_comments(rows, r, sub_end(rows, r)) as usize,
    )
}

/// The roots of the forest `[lo, n)` as the fold's stack holds them: from the
/// last root at the bottom to the first at the top, each root's subtree ending
/// where the next one starts, the bottom one's at `n`.
pub open spec fn roots_ok(rows: Seq<TreeRow>, roots: Seq<int>, lo: int, n: int) -> bool {
    &&& forall|k: int| 0 <= k < roots.len() ==> lo <= #[trigger] roots[k] < n
    &&& forall|k: int|
        #![trigger roots[k]]
        0 <= k < roots.len() - 1 ==> roots[k + 1] < roots[k] && sub_end(rows, roots[k + 1])
            == roots[k]
    &&& roots.len() > 0 ==> sub_end(rows, roots[0]) == n
}

proof fn lemma_roots_pop(rows: Seq<TreeRow>, roots: Seq<int>, lo: int, n: int)
    requires
        roots_ok(rows, roots, lo, n),
        roots.len() > 0,
    ensures
        roots_ok(rows, roots.drop_last(), lo, n),
        roots.len() > 1 ==> roots[roots.len() - 2] == sub_end(rows, roots.last()),
        roots.len() == 1 ==> sub_end(rows, roots.last()) == n,
{
    let d = roots.drop_last();
    assert forall|k: int| #![trigger d[k]] 0 <= k < d.len() - 1 implies d[k + 1] < d[k] && sub_end(
        rows,
        d[k + 1],
    ) == d[k] by {
        assert(d[k] == roots[k]);
        assert(d[k + 1] == roots[k + 1]);
    }
    if roots.len() > 1 {
        let k = roots.len() - 2;
        assert(roots[k + 1] < roots[k]);
    }
}

proof fn lemma_roots_push(rows: Seq<TreeRow>, roots: Seq<int>, lo: int, n: int, cur: int, cut: int)
    requires
        roots_ok(rows, roots, lo, n),
        0 <= cur < lo <= n,
        roots.len() == 0 ==> cut == n,
        roots.len() > 0 ==> roots.last() == cut,
        sub_end(rows, cur) == cut,
    ensures
        roots_ok(rows, roots.push(cur), cur, n),
{
    let p = roots.push(cur);
    assert forall|k: int| #![trigger p[k]] 0 <= k < p.len() - 1 implies p[k + 1] < p[k] && sub_end(
        rows,
        p[k + 1],
    ) == p[k] by {
        if k < roots.len() - 1 {
            assert(roots[k + 1] < roots[k]);
        }
    }
}

/// Fold manuscript words and open comments up the tree in one reverse pass:
/// each row's total is its own plus every descendant's, descendants being the
/// rows after it that are deeper than it, up to the next row that is not.
/// Nothing else about any row changes.
#[verifier::rlimit(40)]
pub fn fold_totals(rows: &mut Vec<TreeRow>)
    requires
        sum_words(old(rows)@, 0, old(rows)@.len() as int) <= usize::MAX,
        sum_comments(old(rows)@, 0, old(rows)@.len() as int) <= usize::MAX,
    ensures
        final(rows)@.len() == old(rows)@.len(),
        forall|i: int|
            0 <= i < final(rows)@.len() ==> {
                let o = old(rows)@[i];
                let r = #[trigger] final(rows)@[i];
                &&& r.item.total_words == sum_words(old(rows)@, i, sub_end(old(rows)@, i))
                &&& r.item.total_comments == sum_comments(old(rows)@, i, sub_end(old(rows)@, i))
                &&& r == TreeRow {
                    item: OverviewRow {
                        total_words: r.item.total_words,
                        total_comments: r.item.total_comments,
                        ..o.item
                    },
                    ..o
                }
            },
{
    let ghost orig = rows@;
    let n = rows.len();
    let mut stack: Vec<(usize, usize, usize)> = Vec::new();
    let ghost mut roots: Seq<int> = Seq::empty();
    let mut i: usize = n;
    while i > 0
        invariant
            0 <= i <= n,
            n == orig.len(),
            rows@.len() == n,
            sum_words(orig, 0, n as int) <= usize::MAX,
            sum_comments(orig, 0, n as int) <= usize::MAX,
            stack@.len() == roots.len(),
            roots.len() == 0 <==> i == n,
            roots.len() > 0 ==> roots.last() == i,
            roots_ok(orig, roots, i as int, n as int),
            forall|k: int| 0 <= k < roots.len() ==> #[trigger] stack@[k] == root_entry(orig, roots[k]),
            forall|k: int| 0 <= k < i ==> #[trigger] rows@[k] == orig[k],
            forall|j: int|
                i <= j < n ==> {
                    let o = orig[j];
                    let r = #[trigger] rows@[j];
                    &&& r.item.total_words == sum_words(orig, j, sub_end(orig, j))
                    &&& r.item.total_comments == sum_comments(orig, j, sub_end(orig, j))
                    &&& r == TreeRow {
                        item: OverviewRow {
                            total_words: r.item.total_words,
                            total_comments: r.item.total_comments,
                            ..o.item
                        },
                        ..o
                    }
                },
        decreases i,
    {
        let cur = i - 1;
        let depth = rows[cur].depth;
        let mut total = rows[cur].item.manuscript_words;
        let mut total_c = rows[cur].item.own_comments;
        let ghost mut cut: int = i as int;
        proof {
            assert(sum_words(orig, cur as int, cur as int) == 0);
            assert(sum_comments(orig, cur as int, cur as int) == 0);
            assert(sum_words(orig, cur as int, i as int) == orig[cur as int].item.manuscript_words);
            assert(sum_comments(orig, cur as int, i as int) == orig[cur as int].item.own_comments);
        }
        while stack.len() > 0 && stack[stack.len() - 1].0 > depth
            invariant
                cur + 1 == i,
                i <= n,
                n == orig.len(),
                depth == orig[cur as int].depth,
                i <= cut <= n,
                sum_words(orig, 0, n as int) <= usize::MAX,
                sum_comments(orig, 0, n as int) <= usize::MAX,
                stack@.len() == roots.len(),
                roots.len() == 0 ==> cut == n,
                roots.len() > 0 ==> roots.last() == cut,
                roots_ok(orig, roots, i as int, n as int),
                forall|k: int| 0 <= k < roots.len() ==> #[trigger] stack@[k] == root_entry(orig, roots[k]),
                total == sum_words(orig, cur as int, cut),
                total_c == sum_comments(orig, cur as int, cut),
                forall|j: int| i <= j < cut ==> (#[trigger] orig[j]).depth > depth,
            decreases stack@.len(),
        {
            let top = stack.pop().unwrap();
            proof {
                let r = roots.last();
                assert(top == root_entry(orig, r));
                lemma_sub_end_bounds(orig, r, r + 1);
                lemma_sums_split(orig, cur as int, r, sub_end(orig, r));
                lemma_sums_split(orig, 0, cur as int, n as int);
                lemma_sums_split(orig, cur as int, sub_end(orig, r), n as int);
                lemma_roots_pop(orig, roots, i as int, n as int);
                cut = sub_end(orig, r);
                roots = roots.drop_last();
            }
            total = total + top.1;
            total_c = total_c + top.2;
        }
        proof {
            lemma_sub_end_is(orig, cur as int, i as int, cut);
            if roots.len() > 0 {
                assert(stack@[roots.len() - 1] == root_entry(orig, roots.last()));
            }
            lemma_roots_push(orig, roots, i as int, n as int, cur as int, cut);
        }
        let mut row = rows.remove(cur);
        row.item.total_words = total;
        row.item.total_comments = total_c;
        rows.insert(cur, row);
        stack.push((depth, total, total_c));
        proof {
            roots = roots.push(cur as int);
        }
        i = cur;
    }
}


// ── one row's own figures ────────────────────────────────────────────────────

/// What a row contributes to the book's length: its own words when it is
/// exported, nothing when it is left out (each row for itself, no cascade).
pub fn manuscript_words(is_exportable: bool, own_words: Option<usize>) -> (w: usize)
    ensures
        w == if is_exportable {
            match own_words {
                Some(n) => n,
                None => 0,
            }
        } else {
            0
        },
{
    if is_exportable {
        match own_words {
            Some(n) => n,
            None => 0,
        }
    } else {
        0
    }
}

/// The depth a row of a container's table is drawn at: its indent rebased so
/// the container's direct children sit at zero, never below zero.
pub fn rebased_depth(indent: i64, base: i64) -> (d: usize)
    requires
        i64::MIN <= indent - base <= i64::MAX,
        i64::MIN <= indent - base - 1,
    ensures
        d == if indent - base - 1 > 0 {
            #[verifier::truncate] ((indent - base - 1) as usize)
        } else {
            0
        },
{
    let rel = indent - base - 1;
    if rel > 0 {
        #[verifier::truncate] (rel as usize)
    } else {
        0
    }
}

// ── assembling the table ────────────────────────────────────────────────────

/// Which count a goal is set in.
#[derive(Debug, Clone, Copy, PartialEq, Eq, Structural)]
pub enum GoalUnit {
    Words,
    Characters,
}

/// What the table reads of one item of the container's subtree.
#[derive(Debug)]
pub struct ItemFacts {
    pub item_id: u64,
    pub uid: u128,
    pub role: BinderItemRole,
    pub sub_role: BinderItemSubRole,
    pub title: String,
    pub label: String,
    pub tags: Vec<u64>,
    pub number: Option<usize>,
    pub fallback_label: Option<String>,
    pub is_exportable: bool,
    /// Whether the item's kind carries countable prose.
    pub counts_prose: bool,
    /// Words counted in its scene text, when it has one.
    pub scene_words: Option<usize>,
    pub word_count_goal: i64,
    pub char_count_goal: i64,
    pub indent: i64,
}

/// What the table shows for a container, before any row is built: whether
/// the container is present, and whether it has rows. With no project open
/// nothing is loaded yet, which is not a missing container; a container the
/// stream no longer holds is gone; a present one may simply be childless.
pub fn container_state(project_open: bool, found: &Subtree) -> (r: (bool, bool))
    ensures
        !project_open ==> r == (true, false),
        project_open ==> r == match *found {
            Subtree::ContainerGone => (false, false),
            Subtree::Found { rows, base } => (true, rows@.len() > 0),
        },
{
    if !project_open {
        return (true, false);
    }
    match found {
        Subtree::ContainerGone => (false, false),
        Subtree::Found { rows, base } => (true, rows.len() > 0),
    }
}

/// One row of a container's table, before totals are folded: its own words
/// only where its kind carries prose (zero when the scene text is not there
/// yet), its manuscript words only when exported, its goal in the project's
/// unit, its own open threads, its depth rebased onto the container, and
/// totals left at zero for the fold.
pub fn overview_row(it: ItemFacts, unit: GoalUnit, own_comments: usize, base: i64) -> (r: TreeRow)
    requires
        i64::MIN <= it.indent - base <= i64::MAX,
        i64::MIN <= it.indent - base - 1,
    ensures
        r.key == it.uid,
        r.depth == if it.indent - base - 1 > 0 {
            #[verifier::truncate] ((it.indent - base - 1) as usize)
        } else {
            0
        },
        r.item.own_words == if it.counts_prose {
            Some(match it.scene_words {
                Some(n) => n,
                None => 0usize,
            })
        } else {
            None::<usize>
        },
        r.item.manuscript_words == if it.is_exportable {
            match r.item.own_words {
                Some(n) => n,
                None => 0,
            }
        } else {
            0
        },
        r.item.goal == match unit {
            GoalUnit::Words => it.word_count_goal,
            GoalUnit::Characters => it.char_count_goal,
        },
        r.item.own_comments == own_comments,
        r.item.total_words == 0 && r.item.total_comments == 0,
        r.item.item_id == it.item_id && r.item.uid == it.uid && r.item.role == it.role
            && r.item.sub_role == it.sub_role && r.item.title == it.title && r.item.label == it.label
            && r.item.tags == it.tags && r.item.number == it.number && r.item.fallback_label
            == it.fallback_label && r.item.is_exportable == it.is_exportable,
{
    let own_words = if it.counts_prose {
        Some(match it.scene_words {
            Some(n) => n,
            None => 0,
        })
    } else {
        None
    };
    let manuscript = manuscript_words(it.is_exportable, own_words);
    let goal = match unit {
        GoalUnit::Words => it.word_count_goal,
        GoalUnit::Characters => it.char_count_goal,
    };
    let depth = rebased_depth(it.indent, base);
    let row = OverviewRow {
        item_id: it.item_id,
        uid: it.uid,
        role: it.role,
        sub_role: it.sub_role,
        title: it.title,
        label: it.label,
        own_words,
        total_words: 0,
        tags: it.tags,
        number: it.number,
        fallback_label: it.fallback_label,
        is_exportable: it.is_exportable,
        manuscript_words: manuscript,
        goal,
        own_comments,
        total_comments: 0,
    };
    TreeRow::new(it.uid, row, depth)
}

/// Where a dragged row lands relative to the row it is dropped on.
#[derive(Debug, Clone, Copy, PartialEq, Eq, Structural)]
pub enum DropPosition {
    Before,
    Into,
    After,
}

/// Where a drop on a row of role `target_role` lands: a drop into a row that
/// is not a folder (a scene holds no children) lands after it instead; every
/// other drop lands where it was made.
pub fn resolve_drop(target_role: BinderItemRole, position: DropPosition) -> (p: DropPosition)
    ensures
        p == if position == DropPosition::Into && target_role != BinderItemRole::Folder {
            DropPosition::After
        } else {
            position
        },
{
    match position {
        DropPosition::Into => match target_role {
            BinderItemRole::Folder => DropPosition::Into,
            _ => DropPosition::After,
        },
        p => p,
    }
}

/// The row owning content `c`, among the first `n` rows whose contents are
/// `contents`: the last row listing it, or -1.
pub open spec fn content_owner(contents: Seq<Seq<u64>>, c: u64, n: int) -> int
    decreases n,
{
    if n <= 0 {
        -1
    } else if contents[n - 1].contains(c) {
        n - 1
    } else {
        content_owner(contents, c, n - 1)
    }
}

/// How many of the first `m` open threads sit on content owned by row `i`.
pub open spec fn threads_on(contents: Seq<Seq<u64>>, open: Seq<u64>, i: int, m: int) -> nat
    decreases m,
{
    if m <= 0 {
        0
    } else {
        threads_on(contents, open, i, m - 1) + if content_owner(contents, open[m - 1], contents.len() as int)
            == i {
            1nat
        } else {
            0nat
        }
    }
}

fn owner_of(contents: &[Vec<u64>], c: u64) -> (o: Option<usize>)
    ensures
        match o {
            Some(i) => i < contents@.len() && content_owner(
                contents@.map_values(|v: Vec<u64>| v@),
                c,
                contents@.len() as int,
            ) == i,
            None => content_owner(contents@.map_values(|v: Vec<u64>| v@), c, contents@.len() as int) == -1,
        },
{
    let ghost cv = contents@.map_values(|v: Vec<u64>| v@);
    let mut i: usize = contents.len();
    while i > 0
        invariant
            0 <= i <= contents@.len(),
            cv == contents@.map_values(|v: Vec<u64>| v@),
            content_owner(cv, c, contents@.len() as int) == content_owner(cv, c, i as int),
        decreases i,
    {
        let v = &contents[i - 1];
        assert(cv[i - 1] == v@);
        let mut k: usize = 0;
        let mut has = false;
        while k < v.len()
            invariant
                0 <= k <= v@.len(),
                has == exists|m: int| 0 <= m < k && v@[m] == c,
            decreases v@.len() - k,
        {
            if v[k] == c {
                has = true;
            }
            k = k + 1;
        }
        if has {
            return Some(i - 1);
        }
        i = i - 1;
    }
    None
}

/// The open threads on each row, counted through the one content-to-row map:
/// `contents` holds each row's content ids, `open` the content id of each
/// open thread; a content listed by two rows counts for the later one, and a
/// thread on content no row owns counts for none.
pub fn open_comments_per_row(contents: &[Vec<u64>], open: &[u64]) -> (counts: Vec<usize>)
    requires
        open@.len() <= usize::MAX,
    ensures
        counts@.len() == contents@.len(),
        forall|i: int| 0 <= i < counts@.len() ==> (#[trigger] counts@[i]) == threads_on(
            contents@.map_values(|v: Vec<u64>| v@),
            open@,
            i,
            open@.len() as int,
        ),
{
    let ghost cv = contents@.map_values(|v: Vec<u64>| v@);
    let mut counts: Vec<usize> = Vec::new();
    let mut i: usize = 0;
    while i < contents.len()
        invariant
            0 <= i <= contents@.len(),
            counts@.len() == i,
            forall|k: int| 0 <= k < i ==> counts@[k] == 0,
        decreases contents@.len() - i,
    {
        counts.push(0);
        i = i + 1;
    }
    let mut j: usize = 0;
    while j < open.len()
        invariant
            0 <= j <= open@.len(),
            cv == contents@.map_values(|v: Vec<u64>| v@),
            counts@.len() == contents@.len(),
            forall|k: int| 0 <= k < counts@.len() ==> (#[trigger] counts@[k]) == threads_on(cv, open@, k, j as int),
            forall|k: int| 0 <= k < counts@.len() ==> #[trigger] threads_on(cv, open@, k, j as int) <= j,
        decreases open@.len() - j,
    {
        proof {
            assert forall|k: int| 0 <= k < counts@.len() implies #[trigger] threads_on(cv, open@, k, j as int + 1) <= j + 1 by {
                assert(threads_on(cv, open@, k, j as int + 1) <= threads_on(cv, open@, k, j as int) + 1);
            }
        }
        match owner_of(contents, open[j]) {
            Some(o) => {
                let ghost c0 = counts@;
                let v = counts[o] + 1;
                counts.set(o, v);
                assert forall|k: int| 0 <= k < counts@.len() implies (#[trigger] counts@[k]) == threads_on(
                    cv,
                    open@,
                    k,
                    j as int + 1,
                ) by {
                    if k != o {
                        assert(counts@[k] == c0[k]);
                    }
                }
            },
            None => {},
        }
        j = j + 1;
    }
    counts
}


/// Which of the first `m` fetched contents is row `i`'s scene text: the
/// first one that is a scene text and whose owner is row `i`.
pub open spec fn scene_text_before(contents: Seq<Seq<u64>>, fetched: Seq<(u64, bool)>, i: int, m: int) -> Option<
    usize,
>
    decreases m,
{
    if m <= 0 {
        None
    } else {
        match scene_text_before(contents, fetched, i, m - 1) {
            Some(k) => Some(k),
            None => if fetched[m - 1].1 && content_owner(contents, fetched[m - 1].0, contents.len() as int)
                == i {
                Some((m - 1) as usize)
            } else {
                None
            },
        }
    }
}

/// Each row's scene text among the fetched contents: `contents` holds each
/// row's content ids, `fetched` each content read back, as its id and whether
/// its role is the scene text, in the order the read returned them. A row
/// takes the first scene text that it owns (through the same content-to-row
/// map as the thread counts), as the position of that content in `fetched`;
/// a row owning none has no scene text.
pub fn scene_text_per_row(contents: &[Vec<u64>], fetched: &[(u64, bool)]) -> (picks: Vec<Option<usize>>)
    ensures
        picks@.len() == contents@.len(),
        forall|i: int| 0 <= i < picks@.len() ==> (#[trigger] picks@[i]) == scene_text_before(
            contents@.map_values(|v: Vec<u64>| v@),
            fetched@,
            i,
            fetched@.len() as int,
        ),
{
    let ghost cv = contents@.map_values(|v: Vec<u64>| v@);
    let mut picks: Vec<Option<usize>> = Vec::new();
    let mut i: usize = 0;
    while i < contents.len()
        invariant
            0 <= i <= contents@.len(),
            picks@.len() == i,
            forall|k: int| 0 <= k < i ==> picks@[k] is None,
        decreases contents@.len() - i,
    {
        picks.push(None);
        i = i + 1;
    }
    let mut j: usize = 0;
    while j < fetched.len()
        invariant
            0 <= j <= fetched@.len(),
            cv == contents@.map_values(|v: Vec<u64>| v@),
            picks@.len() == contents@.len(),
            forall|k: int| 0 <= k < picks@.len() ==> (#[trigger] picks@[k]) == scene_text_before(cv, fetched@, k, j as int),
        decreases fetched@.len() - j,
    {
        let (id, is_scene) = fetched[j];
        if is_scene {
            match owner_of(contents, id) {
                Some(o) => {
                    if picks[o].is_none() {
                        let ghost p0 = picks@;
                        picks.set(o, Some(j));
                        assert forall|k: int| 0 <= k < picks@.len() implies (#[trigger] picks@[k])
                            == scene_text_before(cv, fetched@, k, j as int + 1) by {
                            if k != o {
                                assert(picks@[k] == p0[k]);
                            }
                        }
                    }
                },
                None => {},
            }
        }
        j = j + 1;
    }
    picks
}


/// Whether a content event touches the table: an event naming no content is
/// taken to touch it, else it does when it names a content the table shows.
pub fn touches_scope(scope: &[u64], ids: &[u64]) -> (b: bool)
    ensures
        b == (ids@.len() == 0 || exists|k: int| 0 <= k < ids@.len() && scope@.contains(#[trigger] ids@[k])),
{
    if ids.len() == 0 {
        return true;
    }
    let mut k: usize = 0;
    while k < ids.len()
        invariant
            0 <= k <= ids@.len(),
            forall|m: int| 0 <= m < k ==> !scope@.contains(#[trigger] ids@[m]),
        decreases ids@.len() - k,
    {
        let id = ids[k];
        let mut j: usize = 0;
        while j < scope.len()
            invariant
                0 <= j <= scope@.len(),
                k < ids@.len(),
                id == ids@[k as int],
                forall|m: int| 0 <= m < j ==> scope@[m] != id,
            decreases scope@.len() - j,
        {
            if scope[j] == id {
                assert(scope@[j as int] == id);
                assert(scope@.contains(ids@[k as int]));
                return true;
            }
            j = j + 1;
        }
        k = k + 1;
    }
    false
}

} // verus!
