//! The comment threads of the open Work as both docks list them: what a row
//! says of its anchor, and the order rows are shown in (document order within
//! an item, orphans last, creation time as the tie-break).

use vstd::prelude::*;
use crate::order::{keeps_ties, lemma_keeps_ties_step};

verus! {

/// One reply in a thread.
#[derive(Debug, PartialEq, Eq)]
pub struct ReplyRow {
    pub id: u64,
    pub author_name: String,
    pub body: String,
    /// Seconds and nanoseconds since the Unix epoch.
    pub created_at: (i64, u32),
}

impl Default for ReplyRow {
    /// A reply with no id, author or text, made at the Unix epoch.
    fn default() -> (r: ReplyRow)
        ensures
            r.id == 0 && r.author_name@.len() == 0 && r.body@.len() == 0 && r.created_at == (0i64, 0u32),
    {
        ReplyRow { id: 0, author_name: String::new(), body: String::new(), created_at: (0, 0) }
    }
}

/// One thread.
#[derive(Debug, PartialEq, Eq)]
pub struct CommentRow {
    pub id: u64,
    /// The annotated content, while it still exists.
    pub content_id: Option<u64>,
    /// The binder item owning that content.
    pub item_id: Option<u64>,
    pub item_title: String,
    pub author_name: String,
    pub body: String,
    pub resolved: bool,
    pub orphaned: bool,
    pub range_start: u64,
    pub range_length: u64,
    pub quote_prefix: String,
    pub quote_exact: String,
    pub quote_exact_truncated: bool,
    pub quote_suffix: String,
    pub block_ordinal_hint: u64,
    /// The replies, oldest first.
    pub replies: Vec<ReplyRow>,
    /// Seconds and nanoseconds since the Unix epoch.
    pub created_at: (i64, u32),
}

impl Default for CommentRow {
    fn default() -> (r: CommentRow)
        ensures
            r.id == 0 && r.content_id is None && r.item_id is None && r.item_title@.len() == 0
                && r.author_name@.len() == 0 && r.body@.len() == 0 && !r.resolved && !r.orphaned
                && r.range_start == 0 && r.range_length == 0 && r.quote_prefix@.len() == 0
                && r.quote_exact@.len() == 0 && !r.quote_exact_truncated && r.quote_suffix@.len() == 0
                && r.block_ordinal_hint == 0 && r.replies@.len() == 0 && r.created_at == (0i64, 0u32),
    {
        CommentRow {
            id: 0,
            content_id: None,
            item_id: None,
            item_title: String::new(),
            author_name: String::new(),
            body: String::new(),
            resolved: false,
            orphaned: false,
            range_start: 0,
            range_length: 0,
            quote_prefix: String::new(),
            quote_exact: String::new(),
            quote_exact_truncated: false,
            quote_suffix: String::new(),
            block_ordinal_hint: 0,
            replies: Vec::new(),
            created_at: (0, 0),
        }
    }
}

/// Whether instant `a` comes strictly before instant `b`.
pub open spec fn earlier(a: (i64, u32), b: (i64, u32)) -> bool {
    a.0 < b.0 || (a.0 == b.0 && a.1 < b.1)
}

/// Whether `a` is listed strictly before `b`: rows with an item before rows
/// without, then by item, then anchored before orphaned, then by block and
/// offset in the prose, then by creation time, then by id.
pub open spec fn comment_before(a: CommentRow, b: CommentRow) -> bool {
    if a.item_id.is_none() != b.item_id.is_none() {
        b.item_id.is_none()
    } else if a.item_id != b.item_id {
        a.item_id.unwrap() < b.item_id.unwrap()
    } else if a.orphaned != b.orphaned {
        b.orphaned
    } else if a.block_ordinal_hint != b.block_ordinal_hint {
        a.block_ordinal_hint < b.block_ordinal_hint
    } else if a.range_start != b.range_start {
        a.range_start < b.range_start
    } else if a.created_at != b.created_at {
        earlier(a.created_at, b.created_at)
    } else {
        a.id < b.id
    }
}

/// What a row is listed by: its item, anchoring, block, offset, creation
/// time and id.
pub open spec fn listing_key(r: CommentRow) -> (Option<u64>, bool, u64, u64, (i64, u32), u64) {
    (r.item_id, r.orphaned, r.block_ordinal_hint, r.range_start, r.created_at, r.id)
}

/// [`listing_key`] as a value.
pub open spec fn listing_key_fn() -> spec_fn(CommentRow) -> (Option<u64>, bool, u64, u64, (i64, u32), u64) {
    |r: CommentRow| listing_key(r)
}

/// Whether `rows` are in the order they are listed in.
pub open spec fn comments_sorted(rows: Seq<CommentRow>) -> bool {
    forall|i: int, j: int| 0 <= i < j < rows.len() ==> !comment_before(#[trigger] rows[j], #[trigger] rows[i])
}

/// Whether a row points at live text: not orphaned, its content alive, its
/// range not empty.
pub open spec fn anchored(r: CommentRow) -> bool {
    !r.orphaned && r.content_id is Some && r.range_length > 0
}

/// Whether a row resolved yet has nowhere to point: not orphaned, its content
/// alive, its range empty.
pub open spec fn unplaced(r: CommentRow) -> bool {
    !r.orphaned && r.content_id is Some && r.range_length == 0
}

/// A row is never both anchored and unplaced, and an orphan is neither: it is
/// shown, but the caret cannot be taken to it.
pub proof fn law_orphans_have_no_place(r: CommentRow)
    ensures
        !(anchored(r) && unplaced(r)),
        r.orphaned ==> !anchored(r) && !unplaced(r),
        r.content_id is None ==> !anchored(r) && !unplaced(r),
{
}

impl CommentRow {
    /// Whether the row points at live text the caret can be taken to: not
    /// orphaned, its content alive, and its range not empty.
    pub fn is_anchored(&self) -> (b: bool)
        ensures
            b == anchored(*self),
    {
        !self.orphaned && self.content_id.is_some() && self.range_length > 0
    }

    /// Whether the row resolved yet has nowhere to point: not orphaned, its
    /// content alive, its range empty.
    pub fn is_unplaced(&self) -> (b: bool)
        ensures
            b == unplaced(*self),
    {
        !self.orphaned && self.content_id.is_some() && self.range_length == 0
    }

    /// Whether the thread still needs the writer: it is not resolved.
    pub fn is_open(&self) -> (b: bool)
        ensures
            b == !self.resolved,
    {
        !self.resolved
    }

    /// How many replies the thread has.
    pub fn reply_count(&self) -> (n: usize)
        ensures
            n == self.replies@.len(),
    {
        self.replies.len()
    }

    /// The most recent reply, if any.
    pub fn latest_reply(&self) -> (r: Option<&ReplyRow>)
        ensures
            self.replies@.len() == 0 ==> r is None,
            self.replies@.len() > 0 ==> r == Some(&self.replies@.last()),
    {
        if self.replies.len() == 0 {
            None
        } else {
            Some(&self.replies[self.replies.len() - 1])
        }
    }
}

fn is_listed_before(a: &CommentRow, b: &CommentRow) -> (r: bool)
    ensures
        r == comment_before(*a, *b),
{
    if a.item_id.is_none() != b.item_id.is_none() {
        b.item_id.is_none()
    } else if a.item_id != b.item_id {
        match (a.item_id, b.item_id) {
            (Some(x), Some(y)) => x < y,
            _ => false,
        }
    } else if a.orphaned != b.orphaned {
        b.orphaned
    } else if a.block_ordinal_hint != b.block_ordinal_hint {
        a.block_ordinal_hint < b.block_ordinal_hint
    } else if a.range_start != b.range_start {
        a.range_start < b.range_start
    } else if a.created_at.0 != b.created_at.0 || a.created_at.1 != b.created_at.1 {
        a.created_at.0 < b.created_at.0 || (a.created_at.0 == b.created_at.0 && a.created_at.1
            < b.created_at.1)
    } else {
        a.id < b.id
    }
}

/// Put `rows` in the order they are listed in. The rows are the same ones;
/// rows tie only when they agree on every key, the id included.
pub fn sort_rows(rows: &mut Vec<CommentRow>)
    ensures
        final(rows)@.to_multiset() == old(rows)@.to_multiset(),
        final(rows)@.len() == old(rows)@.len(),
        comments_sorted(final(rows)@),
        keeps_ties(old(rows)@, final(rows)@, listing_key_fn()),
{
    broadcast use vstd::seq_lib::group_to_multiset_ensures;

    let mut input: Vec<CommentRow> = Vec::new();
    std::mem::swap(&mut input, rows);
    let total_len = input.len();
    let ghost total = input@;
    let mut out: Vec<CommentRow> = Vec::new();
    let mut i: usize = 0;
    assert(total.take(0) =~= out@);
    while input.len() > 0
        invariant
            0 <= i <= total.len(),
            total.len() <= usize::MAX,
            input@ == total.skip(i as int),
            out@.to_multiset() == total.take(i as int).to_multiset(),
            out@.len() == i,
            comments_sorted(out@),
            keeps_ties(total.take(i as int), out@, listing_key_fn()),
        decreases input@.len(),
    {
        let x = input.remove(0);
        assert(x == total[i as int]);
        let mut p: usize = 0;
        while p < out.len() && !is_listed_before(&x, &out[p])
            invariant
                0 <= p <= out@.len(),
                forall|k: int| 0 <= k < p ==> !comment_before(x, #[trigger] out@[k]),
            decreases out@.len() - p,
        {
            p = p + 1;
        }
        let ghost before = out@;
        proof {
            assert(total.take(i as int + 1) == total.take(i as int).push(x));
            vstd::seq_lib::to_multiset_build(total.take(i as int), x);
            assert(input@ == total.skip(i as int + 1));
            assert forall|j: int| p <= j < before.len() implies listing_key_fn()(#[trigger] before[j])
                != listing_key_fn()(total[i as int]) by {
                assert(comment_before(x, before[p as int]));
                if j > p {
                    assert(!comment_before(before[j], before[p as int]));
                }
            }
            lemma_keeps_ties_step(total, i as int, before, p as int, listing_key_fn());
        }
        out.insert(p, x);
        proof {
            vstd::seq_lib::to_multiset_insert(before, p as int, x);
            assert forall|a: int, b: int| 0 <= a < b < out@.len() implies !comment_before(
                #[trigger] out@[b],
                #[trigger] out@[a],
            ) by {
                let o = out@;
                if a < p && b == p {
                    assert(o[a] == before[a]);
                } else if a == p && b > p {
                    assert(o[b] == before[b - 1]);
                    assert(comment_before(x, before[p as int]));
                    if b - 1 > p {
                        assert(!comment_before(before[b - 1], before[p as int]));
                    }
                } else if a < p && b > p {
                    assert(o[a] == before[a]);
                    assert(o[b] == before[b - 1]);
                } else if b < p {
                    assert(o[a] == before[a]);
                    assert(o[b] == before[b]);
                } else {
                    assert(o[a] == before[a - 1]);
                    assert(o[b] == before[b - 1]);
                }
            }
        }
        i = i + 1;
    }
    assert(total.take(total.len() as int) == total);
    *rows = out;
}

/// The positions of the rows on `item_id`, in their order: every content of
/// the item, its body, synopsis and title alike.
pub fn rows_for_item(rows: &[CommentRow], item_id: u64) -> (at: Vec<usize>)
    ensures
        forall|k: int| 0 <= k < at@.len() ==> at@[k] < rows@.len() && (#[trigger] rows@[at@[k] as int]).item_id
            == Some(item_id),
        forall|k: int, l: int| 0 <= k < l < at@.len() ==> at@[k] < at@[l],
        forall|j: int| 0 <= j < rows@.len() && (#[trigger] rows@[j]).item_id == Some(item_id) ==> at@.contains(
            j as usize,
        ),
{
    let mut at: Vec<usize> = Vec::new();
    let mut i: usize = 0;
    while i < rows.len()
        invariant
            0 <= i <= rows@.len(),
            forall|k: int| 0 <= k < at@.len() ==> #[trigger] at@[k] < i,
            forall|k: int| 0 <= k < at@.len() ==> (#[trigger] rows@[at@[k] as int]).item_id
                == Some(item_id),
            forall|k: int, l: int| 0 <= k < l < at@.len() ==> at@[k] < at@[l],
            forall|j: int| 0 <= j < i && (#[trigger] rows@[j]).item_id == Some(item_id) ==> at@.contains(
                j as usize,
            ),
        decreases rows@.len() - i,
    {
        if rows[i].item_id == Some(item_id) {
            let ghost a0 = at@;
            at.push(i);
            assert(at@[at@.len() - 1] == i);
            assert forall|k: int, l: int| 0 <= k < l < at@.len() implies at@[k] < at@[l] by {
                if l < a0.len() {
                    assert(at@[k] == a0[k] && at@[l] == a0[l]);
                } else {
                    assert(at@[k] == a0[k]);
                }
            }
            assert forall|j: int| 0 <= j <= i && (#[trigger] rows@[j]).item_id == Some(item_id) implies at@.contains(
                j as usize,
            ) by {
                if j < i {
                    let k = choose|k: int| 0 <= k < a0.len() && a0[k] == j as usize;
                    assert(at@[k] == a0[k]);
                }
            }
        }
        i = i + 1;
    }
    at
}

/// The positions of the rows anchored to `content_id`, in their order.
pub fn rows_for_content(rows: &[CommentRow], content_id: u64) -> (at: Vec<usize>)
    ensures
        forall|k: int| 0 <= k < at@.len() ==> at@[k] < rows@.len() && (#[trigger] rows@[at@[k] as int]).content_id
            == Some(content_id),
        forall|k: int, l: int| 0 <= k < l < at@.len() ==> at@[k] < at@[l],
        forall|j: int| 0 <= j < rows@.len() && (#[trigger] rows@[j]).content_id == Some(content_id) ==> at@.contains(
            j as usize,
        ),
{
    let mut at: Vec<usize> = Vec::new();
    let mut i: usize = 0;
    while i < rows.len()
        invariant
            0 <= i <= rows@.len(),
            forall|k: int| 0 <= k < at@.len() ==> #[trigger] at@[k] < i,
            forall|k: int| 0 <= k < at@.len() ==> (#[trigger] rows@[at@[k] as int]).content_id
                == Some(content_id),
            forall|k: int, l: int| 0 <= k < l < at@.len() ==> at@[k] < at@[l],
            forall|j: int| 0 <= j < i && (#[trigger] rows@[j]).content_id == Some(content_id) ==> at@.contains(
                j as usize,
            ),
        decreases rows@.len() - i,
    {
        if rows[i].content_id == Some(content_id) {
            let ghost a0 = at@;
            at.push(i);
            assert(at@[at@.len() - 1] == i);
            assert forall|k: int, l: int| 0 <= k < l < at@.len() implies at@[k] < at@[l] by {
                if l < a0.len() {
                    assert(at@[k] == a0[k] && at@[l] == a0[l]);
                } else {
                    assert(at@[k] == a0[k]);
                }
            }
            assert forall|j: int| 0 <= j <= i && (#[trigger] rows@[j]).content_id == Some(content_id) implies at@.contains(
                j as usize,
            ) by {
                if j < i {
                    let k = choose|k: int| 0 <= k < a0.len() && a0[k] == j as usize;
                    assert(at@[k] == a0[k]);
                }
            }
        }
        i = i + 1;
    }
    at
}

/// The positions of the orphaned rows, in their order.
pub fn orphans(rows: &[CommentRow]) -> (at: Vec<usize>)
    ensures
        forall|k: int| 0 <= k < at@.len() ==> at@[k] < rows@.len() && (#[trigger] rows@[at@[k] as int]).orphaned,
        forall|k: int, l: int| 0 <= k < l < at@.len() ==> at@[k] < at@[l],
        forall|j: int| 0 <= j < rows@.len() && (#[trigger] rows@[j]).orphaned ==> at@.contains(j as usize),
{
    let mut at: Vec<usize> = Vec::new();
    let mut i: usize = 0;
    while i < rows.len()
        invariant
            0 <= i <= rows@.len(),
            forall|k: int| 0 <= k < at@.len() ==> #[trigger] at@[k] < i,
            forall|k: int| 0 <= k < at@.len() ==> (#[trigger] rows@[at@[k] as int]).orphaned,
            forall|k: int, l: int| 0 <= k < l < at@.len() ==> at@[k] < at@[l],
            forall|j: int| 0 <= j < i && (#[trigger] rows@[j]).orphaned ==> at@.contains(j as usize),
        decreases rows@.len() - i,
    {
        if rows[i].orphaned {
            let ghost a0 = at@;
            at.push(i);
            assert(at@[at@.len() - 1] == i);
            assert forall|k: int, l: int| 0 <= k < l < at@.len() implies at@[k] < at@[l] by {
                if l < a0.len() {
                    assert(at@[k] == a0[k] && at@[l] == a0[l]);
                } else {
                    assert(at@[k] == a0[k]);
                }
            }
            assert forall|j: int| 0 <= j <= i && (#[trigger] rows@[j]).orphaned implies at@.contains(j as usize) by {
                if j < i {
                    let k = choose|k: int| 0 <= k < a0.len() && a0[k] == j as usize;
                    assert(at@[k] == a0[k]);
                }
            }
        }
        i = i + 1;
    }
    at
}

/// Whether a thread lost its anchor: the store says so, or the content it was
/// anchored to no longer exists.
pub fn is_orphaned(stored: bool, content_id: Option<u64>) -> (b: bool)
    ensures
        b == (stored || content_id is None),
{
    stored || content_id.is_none()
}

/// Whether `fetched` holds a reply with this id.
pub open spec fn fetched_has(fetched: Seq<ReplyRow>, id: u64) -> bool {
    exists|k: int| 0 <= k < fetched.len() && (#[trigger] fetched[k]).id == id
}

/// Whether `r` is a copy of the last reply of `fetched` with its id.
pub open spec fn copy_of_last(fetched: Seq<ReplyRow>, r: ReplyRow) -> bool {
    exists|k: int|
        0 <= k < fetched.len() && (#[trigger] fetched[k]).id == r.id && fetched[k].author_name@
            == r.author_name@ && fetched[k].body@ == r.body@ && fetched[k].created_at == r.created_at
            && forall|m: int| k < m < fetched.len() ==> (#[trigger] fetched[m]).id != r.id
}

/// The replies named by `reply_ids`, in that order, each the last of
/// `fetched` with its id; an id with no fetched reply is skipped.
pub fn replies_in_order(reply_ids: &[u64], fetched: &[ReplyRow]) -> (out: Vec<ReplyRow>)
    ensures
        out@.map_values(|r: ReplyRow| r.id) == reply_ids@.filter(|id: u64| fetched_has(fetched@, id)),
        forall|k: int| 0 <= k < out@.len() ==> copy_of_last(fetched@, #[trigger] out@[k]),
{
    let ghost ids = reply_ids@;
    let mut out: Vec<ReplyRow> = Vec::new();
    let mut i: usize = 0;
    while i < reply_ids.len()
        invariant
            0 <= i <= ids.len(),
            ids == reply_ids@,
            out@.map_values(|r: ReplyRow| r.id) == ids.take(i as int).filter(|id: u64| fetched_has(fetched@, id)),
            forall|k: int| 0 <= k < out@.len() ==> copy_of_last(fetched@, #[trigger] out@[k]),
        decreases ids.len() - i,
    {
        proof {
            reveal(Seq::filter);
            assert(ids.take(i as int + 1).drop_last() == ids.take(i as int));
            assert(ids.take(i as int + 1).last() == ids[i as int]);
        }
        let want = reply_ids[i];
        let mut k: usize = 0;
        let mut found: Option<usize> = None;
        while k < fetched.len()
            invariant
                0 <= k <= fetched@.len(),
                found is None ==> forall|m: int| 0 <= m < k ==> (#[trigger] fetched@[m]).id != want,
                found matches Some(f) ==> f < k && fetched@[f as int].id == want && forall|m: int|
                    f < m < k ==> (#[trigger] fetched@[m]).id != want,
            decreases fetched@.len() - k,
        {
            if fetched[k].id == want {
                found = Some(k);
            }
            k = k + 1;
        }
        match found {
            Some(f) => {
                let r = ReplyRow {
                    id: fetched[f].id,
                    author_name: fetched[f].author_name.clone(),
                    body: fetched[f].body.clone(),
                    created_at: fetched[f].created_at,
                };
                assert(copy_of_last(fetched@, r));
                assert(fetched_has(fetched@, want));
                let ghost o0 = out@;
                out.push(r);
                assert(out@.map_values(|r: ReplyRow| r.id) == o0.map_values(|r: ReplyRow| r.id).push(want));
                assert forall|k: int| 0 <= k < out@.len() implies copy_of_last(fetched@, #[trigger] out@[k]) by {
                    if k < o0.len() {
                        assert(out@[k] == o0[k]);
                    }
                }
            },
            None => {
                assert(!fetched_has(fetched@, want));
            },
        }
        i = i + 1;
    }
    assert(ids.take(ids.len() as int) == ids);
    out
}


/// What a thread's card is drawn from: its id, anchor and state, and the id of
/// every reply (a reply deleted and another added leave the count alone but
/// not the card).
pub open spec fn card_shape(r: CommentRow) -> (u64, Option<u64>, bool, bool, u64, u64, Seq<u64>) {
    (
        r.id,
        r.content_id,
        r.resolved,
        r.orphaned,
        r.range_start,
        r.range_length,
        r.replies@.map_values(|x: ReplyRow| x.id),
    )
}

/// The cards a list of threads draws, in order.
pub open spec fn structure_of(rows: Seq<CommentRow>) -> Seq<(u64, Option<u64>, bool, bool, u64, u64, Seq<u64>)> {
    rows.map_values(|r: CommentRow| card_shape(r))
}

/// Whether two threads draw the same card.
pub fn same_card(a: &CommentRow, b: &CommentRow) -> (same: bool)
    ensures
        same == (card_shape(*a) == card_shape(*b)),
{
    if a.id != b.id || a.content_id != b.content_id || a.resolved != b.resolved || a.orphaned
        != b.orphaned || a.range_start != b.range_start || a.range_length != b.range_length
        || a.replies.len() != b.replies.len() {
        proof {
            if a.replies@.len() != b.replies@.len() {
                assert(card_shape(*a).6.len() != card_shape(*b).6.len());
            }
        }
        return false;
    }
    let mut k: usize = 0;
    while k < a.replies.len()
        invariant
            0 <= k <= a.replies@.len(),
            a.replies@.len() == b.replies@.len(),
            forall|j: int| 0 <= j < k ==> a.replies@[j].id == b.replies@[j].id,
        decreases a.replies@.len() - k,
    {
        if a.replies[k].id != b.replies[k].id {
            assert(card_shape(*a).6[k as int] != card_shape(*b).6[k as int]);
            return false;
        }
        k = k + 1;
    }
    assert(card_shape(*a).6 =~= card_shape(*b).6);
    true
}

/// Whether the cards the docks draw changed between two reads of the threads:
/// the signal that tells a card to rebuild, which a re-read that changed no
/// card does not raise.
pub fn structure_changed(before: &[CommentRow], after: &[CommentRow]) -> (changed: bool)
    ensures
        changed == (structure_of(before@) != structure_of(after@)),
{
    if before.len() != after.len() {
        assert(structure_of(before@).len() != structure_of(after@).len());
        return true;
    }
    let mut i: usize = 0;
    while i < before.len()
        invariant
            0 <= i <= before@.len(),
            before@.len() == after@.len(),
            forall|j: int| 0 <= j < i ==> card_shape(#[trigger] before@[j]) == card_shape(after@[j]),
        decreases before@.len() - i,
    {
        if !same_card(&before[i], &after[i]) {
            assert(structure_of(before@)[i as int] != structure_of(after@)[i as int]);
            return true;
        }
        i = i + 1;
    }
    assert(structure_of(before@) =~= structure_of(after@));
    false
}


/// How the list orders two threads: a thread on an item comes before one on
/// none; threads on two items go by item; within an item an anchored thread
/// comes before an orphaned one; then by block, then by offset, then the
/// older first, then by id. The order is strict: never both ways round.
pub proof fn law_listing_order(a: CommentRow, b: CommentRow)
    ensures
        a.item_id is Some && b.item_id is None ==> comment_before(a, b),
        a.item_id is Some && b.item_id is Some && a.item_id.unwrap() < b.item_id.unwrap() ==> comment_before(a, b),
        a.item_id == b.item_id && !a.orphaned && b.orphaned ==> comment_before(a, b),
        a.item_id == b.item_id && a.orphaned == b.orphaned && a.block_ordinal_hint < b.block_ordinal_hint
            ==> comment_before(a, b),
        a.item_id == b.item_id && a.orphaned == b.orphaned && a.block_ordinal_hint == b.block_ordinal_hint
            && a.range_start < b.range_start ==> comment_before(a, b),
        a.item_id == b.item_id && a.orphaned == b.orphaned && a.block_ordinal_hint == b.block_ordinal_hint
            && a.range_start == b.range_start && earlier(a.created_at, b.created_at) ==> comment_before(a, b),
        a.item_id == b.item_id && a.orphaned == b.orphaned && a.block_ordinal_hint == b.block_ordinal_hint
            && a.range_start == b.range_start && a.created_at == b.created_at && a.id < b.id ==> comment_before(a, b),
        !(comment_before(a, b) && comment_before(b, a)),
{
}

/// In the sorted list, within one item every anchored thread is listed
/// before every orphaned one.
pub proof fn law_orphans_come_last_within_their_item(rows: Seq<CommentRow>, i: int, j: int)
    requires
        comments_sorted(rows),
        0 <= i < rows.len(),
        0 <= j < rows.len(),
        rows[i].item_id == rows[j].item_id,
        !rows[i].orphaned,
        rows[j].orphaned,
    ensures
        i < j,
{
    law_listing_order(rows[i], rows[j]);
    if j < i {
        assert(!comment_before(rows[i], rows[j]));
    }
}

} // verus!
