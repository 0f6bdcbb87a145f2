//! The index's state and the four readings taken from it: the roster of who an
//! item names, the cast the Inspector shows for it, the backlinks to it, and the
//! cleaning of a cast list before it is written.

use vstd::prelude::*;
use crate::mentions::{MentionRow, RowView, rows_view, rows_sorted, sorted, copy_strings, strings_view, row_key_fn};
use crate::order::keeps_ties;

verus! {

/// A story-bible entry the scanner can find: its id, title and aliases.
#[derive(Debug, PartialEq, Eq)]
pub struct DiscoverableEntity {
    pub id: u64,
    pub title: String,
    pub aliases: Vec<String>,
}

/// One place the live scan of an item's prose found an entry named.
pub struct LiveHit {
    /// The entry that was named.
    pub entity_id: u64,
    /// The name the prose used: the title or one alias.
    pub matched_name: String,
    pub is_title_match: bool,
    /// The sentence the hit sits in.
    pub evidence: String,
}

/// A hit as a value.
pub struct HitView {
    pub entity_id: u64,
    pub matched_name: Seq<char>,
    pub is_title_match: bool,
    pub evidence: Seq<char>,
}

impl View for LiveHit {
    type V = HitView;

    open spec fn view(&self) -> HitView {
        HitView {
            entity_id: self.entity_id,
            matched_name: self.matched_name@,
            is_title_match: self.is_title_match,
            evidence: self.evidence@,
        }
    }
}

/// The hits of `hits`, each as a value.
pub open spec fn hits_view(hits: Seq<LiveHit>) -> Seq<HitView> {
    hits.map_values(|h: LiveHit| h@)
}

/// Whether the table holds an entry with this id.
pub open spec fn table_has(table: Seq<DiscoverableEntity>, id: u64) -> bool {
    exists|k: int| 0 <= k < table.len() && (#[trigger] table[k]).id == id
}

/// The title of the first entry with this id, or nothing.
pub open spec fn table_title(table: Seq<DiscoverableEntity>, id: u64) -> Seq<char>
    decreases table.len(),
{
    if table.len() == 0 {
        Seq::empty()
    } else if table[0].id == id {
        table[0].title@
    } else {
        table_title(table.drop_first(), id)
    }
}

/// The first position of a row for `target` in `s`, or -1.
pub open spec fn idx_of(s: Seq<RowView>, target: u64) -> int
    decreases s.len(),
{
    if s.len() == 0 {
        -1
    } else if s[0].target_id == target {
        0
    } else {
        let r = idx_of(s.drop_first(), target);
        if r < 0 {
            -1
        } else {
            r + 1
        }
    }
}

proof fn lemma_idx_of_found(s: Seq<RowView>, target: u64, j: int)
    requires
        0 <= j < s.len(),
        s[j].target_id == target,
        forall|k: int| 0 <= k < j ==> (#[trigger] s[k]).target_id != target,
    ensures
        idx_of(s, target) == j,
    decreases j,
{
    if j > 0 {
        assert forall|k: int| 0 <= k < j - 1 implies (#[trigger] s.drop_first()[k]).target_id
            != target by {
            assert(s.drop_first()[k] == s[k + 1]);
        }
        lemma_idx_of_found(s.drop_first(), target, j - 1);
    }
}

proof fn lemma_idx_of_absent(s: Seq<RowView>, target: u64)
    requires
        forall|k: int| 0 <= k < s.len() ==> (#[trigger] s[k]).target_id != target,
    ensures
        idx_of(s, target) == -1,
    decreases s.len(),
{
    if s.len() > 0 {
        assert forall|k: int| 0 <= k < s.len() - 1 implies (#[trigger] s.drop_first()[k]).target_id
            != target by {
            assert(s.drop_first()[k] == s[k + 1]);
        }
        lemma_idx_of_absent(s.drop_first(), target);
    }
}

proof fn lemma_idx_of_range(s: Seq<RowView>, target: u64)
    ensures
        -1 <= idx_of(s, target) < s.len(),
        idx_of(s, target) >= 0 ==> s[idx_of(s, target)].target_id == target,
    decreases s.len(),
{
    if s.len() > 0 && s[0].target_id != target {
        lemma_idx_of_range(s.drop_first(), target);
    }
}

/// Where the first row for `target` sits in `rows`.
fn find_target(rows: &Vec<MentionRow>, target: u64) -> (r: Option<usize>)
    ensures
        match r {
            Some(j) => j as int == idx_of(rows_view(rows@), target) && j < rows@.len(),
            None => idx_of(rows_view(rows@), target) == -1,
        },
{
    let mut j: usize = 0;
    while j < rows.len()
        invariant
            0 <= j <= rows@.len(),
            forall|k: int| 0 <= k < j ==> (#[trigger] rows_view(rows@)[k]).target_id != target,
        decreases rows@.len() - j,
    {
        if rows[j].target_id == target {
            proof {
                lemma_idx_of_found(rows_view(rows@), target, j as int);
            }
            return Some(j);
        }
        j = j + 1;
    }
    proof {
        lemma_idx_of_absent(rows_view(rows@), target);
    }
    None
}

/// Whether the table holds an entry with this id.
fn table_contains(table: &Vec<DiscoverableEntity>, id: u64) -> (b: bool)
    ensures
        b == table_has(table@, id),
{
    let mut k: usize = 0;
    while k < table.len()
        invariant
            0 <= k <= table@.len(),
            forall|j: int| 0 <= j < k ==> (#[trigger] table@[j]).id != id,
        decreases table@.len() - k,
    {
        if table[k].id == id {
            return true;
        }
        k = k + 1;
    }
    false
}

/// The title of the first entry with this id, or an empty string.
fn title_in(table: &Vec<DiscoverableEntity>, id: u64) -> (t: String)
    ensures
        t@ == table_title(table@, id),
{
    let mut k: usize = 0;
    assert(table@.skip(0) == table@);
    while k < table.len()
        invariant
            0 <= k <= table@.len(),
            table_title(table@, id) == table_title(table@.skip(k as int), id),
        decreases table@.len() - k,
    {
        proof {
            assert(table@.skip(k as int).drop_first() == table@.skip(k as int + 1));
            assert(table@.skip(k as int)[0] == table@[k as int]);
        }
        if table[k].id == id {
            return table[k].title.clone();
        }
        k = k + 1;
    }
    String::new()
}

/// Whether `ids` holds `id`.
fn ids_contain(ids: &[u64], id: u64) -> (b: bool)
    ensures
        b == ids@.contains(id),
{
    let mut k: usize = 0;
    while k < ids.len()
        invariant
            0 <= k <= ids@.len(),
            forall|j: int| 0 <= j < k ==> ids@[j] != id,
        decreases ids@.len() - k,
    {
        if ids[k] == id {
            assert(ids@[k as int] == id);
            return true;
        }
        k = k + 1;
    }
    false
}

// ── the rows an owner or a target has ────────────────────────────────────────

/// The rows of `s` owned by `owner`, in order.
pub open spec fn owned_by(s: Seq<RowView>, owner: u64) -> Seq<RowView>
    decreases s.len(),
{
    if s.len() == 0 {
        Seq::empty()
    } else if s.last().owner_id == owner {
        owned_by(s.drop_last(), owner).push(s.last())
    } else {
        owned_by(s.drop_last(), owner)
    }
}

/// The rows of `s` naming `target`, in order.
pub open spec fn naming(s: Seq<RowView>, target: u64) -> Seq<RowView>
    decreases s.len(),
{
    if s.len() == 0 {
        Seq::empty()
    } else if s.last().target_id == target {
        naming(s.drop_last(), target).push(s.last())
    } else {
        naming(s.drop_last(), target)
    }
}

fn rows_owned_by(rows: &Vec<MentionRow>, owner: u64) -> (out: Vec<MentionRow>)
    ensures
        rows_view(out@) == owned_by(rows_view(rows@), owner),
{
    let mut out: Vec<MentionRow> = Vec::new();
    let mut i: usize = 0;
    while i < rows.len()
        invariant
            0 <= i <= rows@.len(),
            rows_view(out@) == owned_by(rows_view(rows@).take(i as int), owner),
        decreases rows@.len() - i,
    {
        proof {
            assert(rows_view(rows@).take(i as int + 1).drop_last() == rows_view(rows@).take(i as int));
        }
        if rows[i].owner_id == owner {
            out.push(rows[i].copy());
        }
        i = i + 1;
    }
    assert(rows_view(rows@).take(rows@.len() as int) == rows_view(rows@));
    out
}

fn rows_naming(rows: &Vec<MentionRow>, target: u64) -> (out: Vec<MentionRow>)
    ensures
        rows_view(out@) == naming(rows_view(rows@), target),
{
    let mut out: Vec<MentionRow> = Vec::new();
    let mut i: usize = 0;
    while i < rows.len()
        invariant
            0 <= i <= rows@.len(),
            rows_view(out@) == naming(rows_view(rows@).take(i as int), target),
        decreases rows@.len() - i,
    {
        proof {
            assert(rows_view(rows@).take(i as int + 1).drop_last() == rows_view(rows@).take(i as int));
        }
        if rows[i].target_id == target {
            out.push(rows[i].copy());
        }
        i = i + 1;
    }
    assert(rows_view(rows@).take(rows@.len() as int) == rows_view(rows@));
    out
}

// ── the live rescan ──────────────────────────────────────────────────────────

/// The row a first live hit on an entry starts.
pub open spec fn live_row(owner: u64, h: HitView, table: Seq<DiscoverableEntity>) -> RowView {
    RowView {
        owner_id: owner,
        target_id: h.entity_id,
        title: table_title(table, h.entity_id),
        matched_names: seq![h.matched_name],
        is_title_match: h.is_title_match,
        hit_count: 1,
        is_confirmed: false,
        is_point_of_view: false,
        evidence: h.evidence,
    }
}

/// The live rescan's rows for `owner`: one per entry named (other than the
/// owner itself, and only entries the table knows), in the order first named,
/// carrying the first hit's name and sentence and the count of hits.
pub open spec fn live_fold(hits: Seq<HitView>, owner: u64, table: Seq<DiscoverableEntity>) -> Seq<
    RowView,
>
    decreases hits.len(),
{
    if hits.len() == 0 {
        Seq::empty()
    } else {
        let prev = live_fold(hits.drop_last(), owner, table);
        let h = hits.last();
        if h.entity_id == owner || !table_has(table, h.entity_id) {
            prev
        } else {
            let k = idx_of(prev, h.entity_id);
            if k >= 0 {
                prev.update(k, RowView { hit_count: (prev[k].hit_count + 1) as i64, ..prev[k] })
            } else {
                prev.push(live_row(owner, h, table))
            }
        }
    }
}

proof fn lemma_live_fold_counts(hits: Seq<HitView>, owner: u64, table: Seq<DiscoverableEntity>)
    requires
        hits.len() < i64::MAX,
    ensures
        forall|k: int|
            0 <= k < live_fold(hits, owner, table).len() ==> 1 <= (#[trigger] live_fold(
                hits,
                owner,
                table,
            )[k]).hit_count <= hits.len(),
    decreases hits.len(),
{
    if hits.len() > 0 {
        let prev = live_fold(hits.drop_last(), owner, table);
        lemma_live_fold_counts(hits.drop_last(), owner, table);
        lemma_idx_of_range(prev, hits.last().entity_id);
    }
}

fn live_rows(hits: &Vec<LiveHit>, owner: u64, table: &Vec<DiscoverableEntity>) -> (out: Vec<
    MentionRow,
>)
    requires
        hits@.len() < i64::MAX,
    ensures
        rows_view(out@) == live_fold(hits_view(hits@), owner, table@),
{
    let mut out: Vec<MentionRow> = Vec::new();
    let ghost hv = hits_view(hits@);
    let mut i: usize = 0;
    while i < hits.len()
        invariant
            0 <= i <= hits@.len(),
            hits@.len() < i64::MAX,
            hv == hits_view(hits@),
            rows_view(out@) == live_fold(hv.take(i as int), owner, table@),
        decreases hits@.len() - i,
    {
        proof {
            assert(hv.take(i as int + 1).drop_last() == hv.take(i as int));
            assert(hv.take(i as int + 1).last() == hits@[i as int]@);
            lemma_live_fold_counts(hv.take(i as int), owner, table@);
        }
        let h = &hits[i];
        if h.entity_id != owner && table_contains(table, h.entity_id) {
            match find_target(&out, h.entity_id) {
                Some(k) => {
                    let ghost before = rows_view(out@);
                    assert(before[k as int].hit_count <= i);
                    let mut row = out[k].copy();
                    row.hit_count = row.hit_count + 1;
                    out.set(k, row);
                    assert(rows_view(out@) == before.update(k as int, out@[k as int]@));
                },
                None => {
                    let title = title_in(table, h.entity_id);
                    let mut names: Vec<String> = Vec::new();
                    names.push(h.matched_name.clone());
                    let row = MentionRow {
                        owner_id: owner,
                        target_id: h.entity_id,
                        title,
                        matched_names: names,
                        is_title_match: h.is_title_match,
                        hit_count: 1,
                        is_confirmed: false,
                        is_point_of_view: false,
                        evidence: h.evidence.clone(),
                    };
                    assert(strings_view(row.matched_names@) == seq![h.matched_name@]);
                    out.push(row);
                },
            }
        }
        i = i + 1;
    }
    assert(hv.take(hits@.len() as int) == hv);
    out
}


// ── merging suggestions into a cast ──────────────────────────────────────────

/// Fold one more suggestion for the same entry into `acc`: the larger count; the
/// first sentence found, with the names it came with; and a title match wins
/// over an alias one.
pub open spec fn merge_step(acc: RowView, row: RowView) -> RowView {
    let hc = if acc.hit_count >= row.hit_count {
        acc.hit_count
    } else {
        row.hit_count
    };
    if acc.evidence.len() == 0 && row.evidence.len() > 0 {
        RowView {
            hit_count: hc,
            evidence: row.evidence,
            matched_names: row.matched_names,
            is_title_match: row.is_title_match,
            ..acc
        }
    } else if row.is_title_match && !acc.is_title_match {
        RowView { hit_count: hc, is_title_match: true, matched_names: row.matched_names, ..acc }
    } else {
        RowView { hit_count: hc, ..acc }
    }
}

/// The cast's suggestion rows after folding in `sugg` in order: one row per
/// entry the table knows (never the owner), owned by `owner`.
pub open spec fn merge_fold(sugg: Seq<RowView>, owner: u64, table: Seq<DiscoverableEntity>) -> Seq<
    RowView,
>
    decreases sugg.len(),
{
    if sugg.len() == 0 {
        Seq::empty()
    } else {
        let prev = merge_fold(sugg.drop_last(), owner, table);
        let r = sugg.last();
        if r.target_id == owner || !table_has(table, r.target_id) {
            prev
        } else {
            let k = idx_of(prev, r.target_id);
            if k >= 0 {
                prev.update(k, merge_step(prev[k], r))
            } else {
                prev.push(RowView { owner_id: owner, is_confirmed: false, ..r })
            }
        }
    }
}

fn merge_into(acc: &MentionRow, row: &MentionRow) -> (out: MentionRow)
    ensures
        out@ == merge_step(acc@, row@),
{
    let hc = if acc.hit_count >= row.hit_count {
        acc.hit_count
    } else {
        row.hit_count
    };
    let mut out = acc.copy();
    out.hit_count = hc;
    if acc.evidence.as_str().is_empty() && !row.evidence.as_str().is_empty() {
        out.evidence = row.evidence.clone();
        out.matched_names = copy_strings(&row.matched_names);
        out.is_title_match = row.is_title_match;
    } else if row.is_title_match && !acc.is_title_match {
        out.is_title_match = true;
        out.matched_names = copy_strings(&row.matched_names);
    }
    out
}

fn merge_suggestions(sugg: &Vec<MentionRow>, owner: u64, table: &Vec<DiscoverableEntity>) -> (out:
    Vec<MentionRow>)
    ensures
        rows_view(out@) == merge_fold(rows_view(sugg@), owner, table@),
{
    let mut out: Vec<MentionRow> = Vec::new();
    let ghost sv = rows_view(sugg@);
    let mut i: usize = 0;
    while i < sugg.len()
        invariant
            0 <= i <= sugg@.len(),
            sv == rows_view(sugg@),
            rows_view(out@) == merge_fold(sv.take(i as int), owner, table@),
        decreases sugg@.len() - i,
    {
        proof {
            assert(sv.take(i as int + 1).drop_last() == sv.take(i as int));
            assert(sv.take(i as int + 1).last() == sugg@[i as int]@);
        }
        let r = &sugg[i];
        if r.target_id != owner && table_contains(table, r.target_id) {
            match find_target(&out, r.target_id) {
                Some(k) => {
                    let ghost before = rows_view(out@);
                    let merged = merge_into(&out[k], r);
                    out.set(k, merged);
                    assert(rows_view(out@) == before.update(k as int, out@[k as int]@));
                },
                None => {
                    let mut row = r.copy();
                    row.owner_id = owner;
                    row.is_confirmed = false;
                    out.push(row);
                },
            }
        }
        i = i + 1;
    }
    assert(sv.take(sugg@.len() as int) == sv);
    out
}

/// A pin or a declaration with no text hit: the entry's own title is the only
/// name in play.
pub open spec fn declared_row(owner: u64, target: u64, table: Seq<DiscoverableEntity>) -> RowView {
    RowView {
        owner_id: owner,
        target_id: target,
        title: table_title(table, target),
        matched_names: seq![table_title(table, target)],
        is_title_match: true,
        hit_count: 0,
        is_confirmed: false,
        is_point_of_view: false,
        evidence: Seq::empty(),
    }
}

/// Whether `id` may stand in the owner's cast: never the owner itself, and only
/// an entry the table knows once it knows any.
pub open spec fn cast_ok(id: u64, owner: u64, table: Seq<DiscoverableEntity>) -> bool {
    id != owner && (table.len() == 0 || table_has(table, id))
}

/// `acc` with a declared row added for each acceptable id of `ids` that has no
/// row yet, in order.
pub open spec fn inject_fold(acc: Seq<RowView>, ids: Seq<u64>, owner: u64, table: Seq<
    DiscoverableEntity,
>) -> Seq<RowView>
    decreases ids.len(),
{
    if ids.len() == 0 {
        acc
    } else {
        let prev = inject_fold(acc, ids.drop_last(), owner, table);
        let id = ids.last();
        if cast_ok(id, owner, table) && idx_of(prev, id) < 0 {
            prev.push(declared_row(owner, id, table))
        } else {
            prev
        }
    }
}

fn declared(owner: u64, target: u64, table: &Vec<DiscoverableEntity>) -> (row: MentionRow)
    ensures
        row@ == declared_row(owner, target, table@),
{
    let title = title_in(table, target);
    let mut names: Vec<String> = Vec::new();
    names.push(title.clone());
    let row = MentionRow {
        owner_id: owner,
        target_id: target,
        title,
        matched_names: names,
        is_title_match: true,
        hit_count: 0,
        is_confirmed: false,
        is_point_of_view: false,
        evidence: String::new(),
    };
    assert(strings_view(row.matched_names@) == seq![table_title(table@, target)]);
    row
}

fn inject(acc: &mut Vec<MentionRow>, ids: &[u64], owner: u64, table: &Vec<DiscoverableEntity>)
    ensures
        rows_view(final(acc)@) == inject_fold(rows_view(old(acc)@), ids@, owner, table@),
{
    let ghost start = rows_view(acc@);
    let mut i: usize = 0;
    while i < ids.len()
        invariant
            0 <= i <= ids@.len(),
            rows_view(acc@) == inject_fold(start, ids@.take(i as int), owner, table@),
        decreases ids@.len() - i,
    {
        proof {
            assert(ids@.take(i as int + 1).drop_last() == ids@.take(i as int));
        }
        let id = ids[i];
        if id != owner && (table.len() == 0 || table_contains(table, id)) {
            match find_target(acc, id) {
                Some(_) => {},
                None => {
                    acc.push(declared(owner, id, table));
                },
            }
        }
        i = i + 1;
    }
    assert(ids@.take(ids@.len() as int) == ids@);
}

/// `rows` with both flags restated from their one true source: the ids the
/// owner pins and the ids it declares as its point of view.
pub open spec fn flagged(rows: Seq<RowView>, confirmed: Seq<u64>, pov: Seq<u64>, owner: u64, table: Seq<
    DiscoverableEntity,
>) -> Seq<RowView> {
    rows.map_values(
        |r: RowView|
            RowView {
                is_confirmed: confirmed.contains(r.target_id) && cast_ok(r.target_id, owner, table),
                is_point_of_view: pov.contains(r.target_id) && cast_ok(r.target_id, owner, table),
                ..r
            },
    )
}

fn apply_flags(rows: &mut Vec<MentionRow>, confirmed: &[u64], pov: &[u64], owner: u64, table: &Vec<
    DiscoverableEntity,
>)
    ensures
        rows_view(final(rows)@) == flagged(rows_view(old(rows)@), confirmed@, pov@, owner, table@),
{
    let ghost start = rows_view(rows@);
    let mut i: usize = 0;
    while i < rows.len()
        invariant
            0 <= i <= rows@.len(),
            rows@.len() == start.len(),
            forall|k: int| i <= k < rows@.len() ==> (#[trigger] rows@[k])@ == start[k],
            forall|k: int|
                0 <= k < i ==> (#[trigger] rows@[k])@ == flagged(start, confirmed@, pov@, owner, table@)[k],
        decreases rows@.len() - i,
    {
        let t = rows[i].target_id;
        let ok = t != owner && (table.len() == 0 || table_contains(table, t));
        let c = ids_contain(confirmed, t) && ok;
        let p = ids_contain(pov, t) && ok;
        let mut row = rows[i].copy();
        row.is_confirmed = c;
        row.is_point_of_view = p;
        rows.set(i, row);
        i = i + 1;
    }
    assert(rows_view(rows@) =~= flagged(start, confirmed@, pov@, owner, table@));
}

// ── carrying the batch's flags over a live roster ──────────────────────────

/// `live` with the batch's rows carried over in order: a row the live pass also
/// found takes the batch's flags, and a pinned or declared row it did not find
/// is kept as the batch had it.
pub open spec fn carry_fold(live: Seq<RowView>, batch: Seq<RowView>) -> Seq<RowView>
    decreases batch.len(),
{
    if batch.len() == 0 {
        live
    } else {
        let prev = carry_fold(live, batch.drop_last());
        let b = batch.last();
        let k = idx_of(prev, b.target_id);
        if k >= 0 {
            prev.update(
                k,
                RowView { is_confirmed: b.is_confirmed, is_point_of_view: b.is_point_of_view, ..prev[k] },
            )
        } else if b.is_confirmed || b.is_point_of_view {
            prev.push(b)
        } else {
            prev
        }
    }
}

fn carry(live: &mut Vec<MentionRow>, batch: &Vec<MentionRow>)
    ensures
        rows_view(final(live)@) == carry_fold(rows_view(old(live)@), rows_view(batch@)),
{
    let ghost start = rows_view(live@);
    let ghost bv = rows_view(batch@);
    let mut i: usize = 0;
    while i < batch.len()
        invariant
            0 <= i <= batch@.len(),
            bv == rows_view(batch@),
            rows_view(live@) == carry_fold(start, bv.take(i as int)),
        decreases batch@.len() - i,
    {
        proof {
            assert(bv.take(i as int + 1).drop_last() == bv.take(i as int));
            assert(bv.take(i as int + 1).last() == batch@[i as int]@);
        }
        let b = &batch[i];
        match find_target(live, b.target_id) {
            Some(k) => {
                let ghost before = rows_view(live@);
                let mut row = live[k].copy();
                row.is_confirmed = b.is_confirmed;
                row.is_point_of_view = b.is_point_of_view;
                live.set(k, row);
                assert(rows_view(live@) == before.update(k as int, live@[k as int]@));
            },
            None => {
                if b.is_confirmed || b.is_point_of_view {
                    live.push(b.copy());
                }
            },
        }
        i = i + 1;
    }
    assert(bv.take(batch@.len() as int) == bv);
}


// ── the index ────────────────────────────────────────────────────────────────

/// Every row of the owners' batches, owner by owner.
pub open spec fn batch_for(rows: Seq<RowView>, owners: Seq<u64>) -> Seq<RowView>
    decreases owners.len(),
{
    if owners.len() == 0 {
        Seq::empty()
    } else {
        batch_for(rows, owners.drop_last()) + owned_by(rows, owners.last())
    }
}

/// The live hits' rows for `owner`, when there is live prose and a table to
/// match it against.
pub open spec fn live_part(live: Option<Seq<HitView>>, owner: u64, table: Seq<DiscoverableEntity>) -> Seq<
    RowView,
> {
    match live {
        Some(h) => if table.len() > 0 {
            live_fold(h, owner, table)
        } else {
            Seq::empty()
        },
        None => Seq::empty(),
    }
}

/// The owners whose batch rows feed a cast: the owner's own, unless live prose
/// replaces it, then the extra owners of a chapter union.
pub open spec fn cast_owners(owner: u64, live_present: bool, extra: Seq<u64>) -> Seq<u64> {
    if live_present {
        extra
    } else {
        seq![owner] + extra
    }
}

/// The cast's rows before they are ordered.
pub open spec fn cast_rows(
    rows: Seq<RowView>,
    table: Seq<DiscoverableEntity>,
    owner: u64,
    live: Option<Seq<HitView>>,
    confirmed: Seq<u64>,
    pov: Seq<u64>,
    extra: Seq<u64>,
) -> Seq<RowView> {
    let sugg = batch_for(rows, cast_owners(owner, live is Some, extra)) + live_part(live, owner, table);
    let merged = merge_fold(sugg, owner, table);
    flagged(
        inject_fold(inject_fold(merged, confirmed, owner, table), pov, owner, table),
        confirmed,
        pov,
        owner,
        table,
    )
}

/// The roster's rows before they are ordered.
pub open spec fn roster_rows(
    rows: Seq<RowView>,
    table: Seq<DiscoverableEntity>,
    item: u64,
    live: Option<Seq<HitView>>,
) -> Seq<RowView> {
    let batch = owned_by(rows, item);
    match live {
        Some(h) => if table.len() > 0 {
            carry_fold(live_fold(h, item, table), batch)
        } else {
            batch
        },
        None => batch,
    }
}

/// `ids` kept in order, without the owner, without ids the table does not know
/// (once it knows any) and without repeats.
pub open spec fn cast_targets(ids: Seq<u64>, owner: u64, table: Seq<DiscoverableEntity>) -> Seq<u64>
    decreases ids.len(),
{
    if ids.len() == 0 {
        Seq::empty()
    } else {
        let prev = cast_targets(ids.drop_last(), owner, table);
        let id = ids.last();
        if cast_ok(id, owner, table) && !prev.contains(id) {
            prev.push(id)
        } else {
            prev
        }
    }
}

/// The hits of a live rescan, if there was one.
pub open spec fn live_view(live: Option<&Vec<LiveHit>>) -> Option<Seq<HitView>> {
    match live {
        Some(h) => Some(hits_view(h@)),
        None => None,
    }
}

/// A live rescan of an item's prose: whether the prose was empty, and the
/// hits found in it.
pub struct LiveScan {
    pub prose_empty: bool,
    pub hits: Vec<LiveHit>,
}

/// What a live scan overlays on the batch: nothing when there is no scan or
/// its prose was empty, else its hits.
pub open spec fn overlay_view(live: Option<&LiveScan>) -> Option<Seq<HitView>> {
    match live {
        Some(s) => if s.prose_empty {
            None
        } else {
            Some(hits_view(s.hits@))
        },
        None => None,
    }
}

/// The last completed scan: every row it reported, in the order it reported
/// them, and the alias table it matched against.
pub struct MentionIndex {
    pub rows: Vec<MentionRow>,
    pub table: Vec<DiscoverableEntity>,
}

/// Whether a scan fired for `fired_for` may land while `current` is open: only
/// for the project it was fired for.
pub fn accepts_scan(fired_for: Option<u64>, current: Option<u64>) -> (b: bool)
    ensures
        b == (fired_for.is_some() && current == fired_for),
{
    match fired_for {
        Some(f) => match current {
            Some(c) => c == f,
            None => false,
        },
        None => false,
    }
}

/// How long a save-driven rescan waits after the last scan fired, in
/// milliseconds.
pub const RESCAN_THROTTLE_MS: u64 = 60_000;

/// Whether a rescan fires now: never while a scan is in flight; one a save
/// asked for (`throttled`) also not within the throttle of the last one
/// fired, `since_last_ms` ago (none when no scan has fired yet). A rescan the
/// writer's own action asked for is never throttled.
pub fn rescan_due(in_flight: bool, throttled: bool, since_last_ms: Option<u64>) -> (due: bool)
    ensures
        due == (!in_flight && !(throttled && match since_last_ms {
            Some(t) => t < RESCAN_THROTTLE_MS,
            None => false,
        })),
{
    if in_flight {
        return false;
    }
    if throttled {
        match since_last_ms {
            Some(t) => t >= RESCAN_THROTTLE_MS,
            None => true,
        }
    } else {
        true
    }
}

/// Take the in-flight scan's operation id out of `active` when a finished
/// operation `event_op` is that scan; leave it in place otherwise.
pub fn take_if_ours(active: &mut Option<String>, event_op: Option<&str>) -> (taken: Option<String>)
    ensures
        ({
            let ours = match (*old(active), event_op) {
                (Some(a), Some(e)) => a@ == e@,
                _ => false,
            };
            &&& ours ==> taken == *old(active) && *final(active) == None::<String>
            &&& !ours ==> taken == None::<String> && *final(active) == *old(active)
        }),
{
    let ours = match active {
        Some(id) => match event_op {
            Some(e) => crate::text::str_eq(id.as_str(), e),
            None => false,
        },
        None => false,
    };
    if ours {
        active.take()
    } else {
        None
    }
}

impl MentionIndex {
    /// An index no scan has landed in yet.
    pub fn new() -> (idx: MentionIndex)
        ensures
            idx.rows@.len() == 0,
            idx.table@.len() == 0,
    {
        MentionIndex { rows: Vec::new(), table: Vec::new() }
    }

    /// Take a completed scan: its rows replace the old ones, and its table, when
    /// it reported one, replaces the old table.
    pub fn load_scan(&mut self, rows: Vec<MentionRow>, table: Option<Vec<DiscoverableEntity>>)
        ensures
            final(self).rows@ == rows@,
            match table {
                Some(t) => final(self).table@ == t@,
                None => final(self).table@ == old(self).table@,
            },
    {
        self.rows = rows;
        match table {
            Some(t) => {
                self.table = t;
            },
            None => {},
        }
    }

    /// Whether `target_id` is currently a valid cast target: the table holds it.
    pub fn is_valid_cast_target(&self, target_id: u64) -> (b: bool)
        ensures
            b == table_has(self.table@, target_id),
    {
        table_contains(&self.table, target_id)
    }

    /// Keep only discoverable, non-self targets, preserving order and dropping
    /// duplicates; with no table yet, only self and duplicates are dropped.
    pub fn filter_cast_targets(&self, owner_id: u64, ids: &[u64]) -> (out: Vec<u64>)
        ensures
            out@ == cast_targets(ids@, owner_id, self.table@),
    {
        let mut out: Vec<u64> = Vec::new();
        let mut i: usize = 0;
        while i < ids.len()
            invariant
                0 <= i <= ids@.len(),
                out@ == cast_targets(ids@.take(i as int), owner_id, self.table@),
            decreases ids@.len() - i,
        {
            proof {
                assert(ids@.take(i as int + 1).drop_last() == ids@.take(i as int));
            }
            let id = ids[i];
            if id != owner_id && (self.table.len() == 0 || table_contains(&self.table, id)) {
                if !ids_contain(out.as_slice(), id) {
                    out.push(id);
                }
            }
            i = i + 1;
        }
        assert(ids@.take(ids@.len() as int) == ids@);
        out
    }

    /// Where this item is mentioned: the batch's rows naming it, in the order
    /// rows are shown in.
    pub fn backlinks_for(&self, item_id: u64) -> (out: Vec<MentionRow>)
        ensures
            rows_view(out@).to_multiset() == naming(rows_view(self.rows@), item_id).to_multiset(),
            rows_sorted(rows_view(out@)),
            keeps_ties(naming(rows_view(self.rows@), item_id), rows_view(out@), row_key_fn()),
    {
        sorted(rows_naming(&self.rows, item_id))
    }

    /// Who this item names: the batch's answer, or, with a live rescan of its
    /// prose in hand, the live rows with the batch's pins and points of view
    /// carried over; in the order rows are shown in.
    pub fn roster_for(&self, item_id: u64, live: Option<&Vec<LiveHit>>) -> (out: Vec<MentionRow>)
        requires
            live matches Some(h) ==> h@.len() < i64::MAX,
        ensures
            rows_view(out@).to_multiset() == roster_rows(
                rows_view(self.rows@),
                self.table@,
                item_id,
                live_view(live),
            ).to_multiset(),
            rows_sorted(rows_view(out@)),
            keeps_ties(
                roster_rows(rows_view(self.rows@), self.table@, item_id, live_view(live)),
                rows_view(out@),
                row_key_fn(),
            ),
    {
        let batch = rows_owned_by(&self.rows, item_id);
        match live {
            Some(hits) => {
                if self.table.len() > 0 {
                    let mut rows = live_rows(hits, item_id, &self.table);
                    carry(&mut rows, &batch);
                    sorted(rows)
                } else {
                    sorted(batch)
                }
            },
            None => sorted(batch),
        }
    }

    /// The cast for the focused item, given a live scan of its prose:
    /// empty prose (a new scene, a cleared body) is no overlay at all and
    /// reads exactly as having no live scan, so the owner's batch half stays;
    /// otherwise as [`MentionIndex::cast_from_hits`] with the scan's hits.
    pub fn cast_for(
        &self,
        owner_id: u64,
        live: Option<&LiveScan>,
        confirmed: &[u64],
        point_of_view: &[u64],
        extra_owners: &[u64],
    ) -> (out: Vec<MentionRow>)
        requires
            live matches Some(s) ==> s.hits@.len() < i64::MAX,
        ensures
            rows_view(out@).to_multiset() == cast_rows(
                rows_view(self.rows@),
                self.table@,
                owner_id,
                overlay_view(live),
                confirmed@,
                point_of_view@,
                extra_owners@,
            ).to_multiset(),
            rows_sorted(rows_view(out@)),
            keeps_ties(
                cast_rows(
                    rows_view(self.rows@),
                    self.table@,
                    owner_id,
                    overlay_view(live),
                    confirmed@,
                    point_of_view@,
                    extra_owners@,
                ),
                rows_view(out@),
                row_key_fn(),
            ),
    {
        let hits: Option<&Vec<LiveHit>> = match live {
            Some(s) => if s.prose_empty {
                None
            } else {
                Some(&s.hits)
            },
            None => None,
        };
        assert(live_view(hits) == overlay_view(live));
        self.cast_from_hits(owner_id, hits, confirmed, point_of_view, extra_owners)
    }

    /// The cast for the focused item: confirmed pins first, then scan
    /// suggestions from the batch (the owner's own unless live hits replace
    /// it, plus the extra owners of a chapter union) and the live hits; pins
    /// and declared points of view with no hit are shown too, and both flags
    /// come from `confirmed` and `point_of_view` alone.
    pub fn cast_from_hits(
        &self,
        owner_id: u64,
        live: Option<&Vec<LiveHit>>,
        confirmed: &[u64],
        point_of_view: &[u64],
        extra_owners: &[u64],
    ) -> (out: Vec<MentionRow>)
        requires
            live matches Some(h) ==> h@.len() < i64::MAX,
        ensures
            rows_view(out@).to_multiset() == cast_rows(
                rows_view(self.rows@),
                self.table@,
                owner_id,
                live_view(live),
                confirmed@,
                point_of_view@,
                extra_owners@,
            ).to_multiset(),
            rows_sorted(rows_view(out@)),
            keeps_ties(
                cast_rows(
                    rows_view(self.rows@),
                    self.table@,
                    owner_id,
                    live_view(live),
                    confirmed@,
                    point_of_view@,
                    extra_owners@,
                ),
                rows_view(out@),
                row_key_fn(),
            ),
    {
        let ghost rv = rows_view(self.rows@);
        let ghost owners = cast_owners(owner_id, live.is_some(), extra_owners@);
        let mut sugg: Vec<MentionRow> = Vec::new();
        let mut n: usize = 0;
        if live.is_none() {
            let own = rows_owned_by(&self.rows, owner_id);
            append_rows(&mut sugg, &own);
            proof {
                assert(owners.take(1) == seq![owner_id]);
                assert(owners.take(1).drop_last() == Seq::<u64>::empty());
            }
            n = 1;
        }
        proof {
            assert(owners.take(n as int).drop_last().len() == 0 ==> batch_for(rv, owners.take(n as int).drop_last()) == Seq::<RowView>::empty());
            assert(rows_view(sugg@) == batch_for(rv, owners.take(n as int)));
        }
        let mut j: usize = 0;
        while j < extra_owners.len()
            invariant
                0 <= j <= extra_owners@.len(),
                rv == rows_view(self.rows@),
                n == (if live.is_some() { 0usize } else { 1usize }),
                owners == cast_owners(owner_id, live.is_some(), extra_owners@),
                owners.len() == n + extra_owners@.len(),
                forall|k: int| 0 <= k < extra_owners@.len() ==> owners[n + k] == extra_owners@[k],
                rows_view(sugg@) == batch_for(rv, owners.take(n + j)),
            decreases extra_owners@.len() - j,
        {
            let own = rows_owned_by(&self.rows, extra_owners[j]);
            append_rows(&mut sugg, &own);
            proof {
                assert(owners.take(n + j + 1).drop_last() == owners.take(n + j));
                assert(owners.take(n + j + 1).last() == extra_owners@[j as int]);
            }
            j = j + 1;
        }
        assert(owners.take(n + extra_owners@.len()) == owners);
        match live {
            Some(hits) => {
                if self.table.len() > 0 {
                    let lr = live_rows(hits, owner_id, &self.table);
                    append_rows(&mut sugg, &lr);
                }
            },
            None => {},
        }
        assert(rows_view(sugg@) == batch_for(rv, owners) + live_part(
            live_view(live),
            owner_id,
            self.table@,
        ));
        let mut rows = merge_suggestions(&sugg, owner_id, &self.table);
        inject(&mut rows, confirmed, owner_id, &self.table);
        inject(&mut rows, point_of_view, owner_id, &self.table);
        apply_flags(&mut rows, confirmed, point_of_view, owner_id, &self.table);
        sorted(rows)
    }
}

/// `out` with copies of `more` appended.
fn append_rows(out: &mut Vec<MentionRow>, more: &Vec<MentionRow>)
    ensures
        rows_view(final(out)@) == rows_view(old(out)@) + rows_view(more@),
{
    let ghost start = rows_view(out@);
    let mut i: usize = 0;
    while i < more.len()
        invariant
            0 <= i <= more@.len(),
            rows_view(out@) == start + rows_view(more@).take(i as int),
        decreases more@.len() - i,
    {
        let ghost o0 = out@;
        out.push(more[i].copy());
        proof {
            assert(out@ == o0.push(out@.last()));
            assert(rows_view(out@) == rows_view(o0).push(more@[i as int]@));
            assert(rows_view(more@).take(i as int + 1) == rows_view(more@).take(i as int).push(
                more@[i as int]@,
            ));
        }
        i = i + 1;
    }
    assert(rows_view(more@).take(more@.len() as int) == rows_view(more@));
}


// ── what every cast is ───────────────────────────────────────────────────────

proof fn lemma_idx_of_neg(s: Seq<RowView>, target: u64)
    ensures
        idx_of(s, target) < 0 ==> forall|k: int| 0 <= k < s.len() ==> (#[trigger] s[k]).target_id != target,
    decreases s.len(),
{
    if s.len() > 0 && s[0].target_id != target {
        lemma_idx_of_neg(s.drop_first(), target);
        if idx_of(s, target) < 0 {
            assert forall|k: int| 0 <= k < s.len() implies (#[trigger] s[k]).target_id != target by {
                if k > 0 {
                    assert(s[k] == s.drop_first()[k - 1]);
                }
            }
        }
    }
}

/// Whether some row of `rows` is for `target`.
pub open spec fn has_row_for(rows: Seq<RowView>, target: u64) -> bool {
    exists|i: int| 0 <= i < rows.len() && (#[trigger] rows[i]).target_id == target
}

proof fn lemma_idx_of_has(s: Seq<RowView>, target: u64)
    ensures
        (idx_of(s, target) >= 0) == has_row_for(s, target),
{
    lemma_idx_of_range(s, target);
    lemma_idx_of_neg(s, target);
}

/// Whether `rows` are all `owner`'s, none of them for the owner itself, and
/// no two for the same entry.
pub open spec fn owned_once(rows: Seq<RowView>, owner: u64) -> bool {
    &&& forall|i: int| 0 <= i < rows.len() ==> (#[trigger] rows[i]).owner_id == owner && rows[i].target_id != owner
    &&& forall|i: int, j: int|
        0 <= i < j < rows.len() ==> (#[trigger] rows[i]).target_id != (#[trigger] rows[j]).target_id
}

proof fn lemma_merge_fold_shape(sugg: Seq<RowView>, owner: u64, table: Seq<DiscoverableEntity>)
    ensures
        owned_once(merge_fold(sugg, owner, table), owner),
        forall|i: int|
            0 <= i < merge_fold(sugg, owner, table).len() ==> table_has(
                table,
                (#[trigger] merge_fold(sugg, owner, table)[i]).target_id,
            ),
    decreases sugg.len(),
{
    if sugg.len() > 0 {
        let prev = merge_fold(sugg.drop_last(), owner, table);
        lemma_merge_fold_shape(sugg.drop_last(), owner, table);
        let r = sugg.last();
        if !(r.target_id == owner || !table_has(table, r.target_id)) {
            let k = idx_of(prev, r.target_id);
            lemma_idx_of_range(prev, r.target_id);
            lemma_idx_of_neg(prev, r.target_id);
            let out = merge_fold(sugg, owner, table);
            if k >= 0 {
                assert forall|i: int| 0 <= i < out.len() implies (#[trigger] out[i]).target_id == prev[i].target_id
                    && out[i].owner_id == prev[i].owner_id by {
                    if i == k {
                        assert(out[i] == merge_step(prev[k], r));
                    }
                }
            } else {
                assert(out == prev.push(RowView { owner_id: owner, is_confirmed: false, ..r }));
            }
        }
    }
}

proof fn lemma_inject_fold_shape(acc: Seq<RowView>, ids: Seq<u64>, owner: u64, table: Seq<DiscoverableEntity>)
    requires
        owned_once(acc, owner),
    ensures
        owned_once(inject_fold(acc, ids, owner, table), owner),
        inject_fold(acc, ids, owner, table).len() >= acc.len(),
        forall|i: int| 0 <= i < acc.len() ==> #[trigger] inject_fold(acc, ids, owner, table)[i] == acc[i],
        forall|i: int|
            acc.len() <= i < inject_fold(acc, ids, owner, table).len() ==> ids.contains(
                (#[trigger] inject_fold(acc, ids, owner, table)[i]).target_id,
            ) && cast_ok(inject_fold(acc, ids, owner, table)[i].target_id, owner, table),
        forall|k: int|
            0 <= k < ids.len() && cast_ok(ids[k], owner, table) ==> has_row_for(
                inject_fold(acc, ids, owner, table),
                #[trigger] ids[k],
            ),
    decreases ids.len(),
{
    if ids.len() > 0 {
        let short = ids.drop_last();
        let prev = inject_fold(acc, short, owner, table);
        lemma_inject_fold_shape(acc, short, owner, table);
        let id = ids.last();
        let out = inject_fold(acc, ids, owner, table);
        lemma_idx_of_has(prev, id);
        lemma_idx_of_neg(prev, id);
        assert forall|k: int| 0 <= k < short.len() implies #[trigger] ids[k] == short[k] by {}
        if cast_ok(id, owner, table) && idx_of(prev, id) < 0 {
            let row = declared_row(owner, id, table);
            assert(out == prev.push(row));
            assert(out[prev.len() as int] == row);
            assert forall|i: int| acc.len() <= i < out.len() implies ids.contains((#[trigger] out[i]).target_id)
                && cast_ok(out[i].target_id, owner, table) by {
                if i < prev.len() {
                    assert(out[i] == prev[i]);
                    assert(short.contains(prev[i].target_id));
                    let m = choose|m: int| 0 <= m < short.len() && short[m] == prev[i].target_id;
                    assert(ids[m] == short[m]);
                } else {
                    assert(ids[ids.len() - 1] == id);
                }
            }
            assert forall|k: int| 0 <= k < ids.len() && cast_ok(ids[k], owner, table) implies has_row_for(
                out,
                #[trigger] ids[k],
            ) by {
                if k < short.len() {
                    assert(ids[k] == short[k]);
                    assert(has_row_for(prev, short[k]));
                    let i = choose|i: int| 0 <= i < prev.len() && (#[trigger] prev[i]).target_id == short[k];
                    assert(out[i] == prev[i]);
                } else {
                    assert(out[prev.len() as int].target_id == ids[k]);
                }
            }
        } else {
            assert forall|i: int| acc.len() <= i < out.len() implies ids.contains((#[trigger] out[i]).target_id)
                && cast_ok(out[i].target_id, owner, table) by {
                assert(short.contains(prev[i].target_id));
                let m = choose|m: int| 0 <= m < short.len() && short[m] == prev[i].target_id;
                assert(ids[m] == short[m]);
            }
            assert forall|k: int| 0 <= k < ids.len() && cast_ok(ids[k], owner, table) implies has_row_for(
                out,
                #[trigger] ids[k],
            ) by {
                if k < short.len() {
                    assert(ids[k] == short[k]);
                }
            }
        }
    }
}

/// What a cast of `owner` looks like: all its rows are the owner's, none for
/// the owner itself, no two for the same entry; each is for an entry the
/// table knows, or for a pin or declared point of view while the table knows
/// none; a row reads as confirmed exactly when the owner pins its entry, and
/// as point of view exactly when the owner declares it; and every acceptable
/// pin and declared point of view has its row.
pub open spec fn cast_shape(
    c: Seq<RowView>,
    table: Seq<DiscoverableEntity>,
    owner: u64,
    confirmed: Seq<u64>,
    pov: Seq<u64>,
) -> bool {
    &&& owned_once(c, owner)
    &&& forall|i: int|
        0 <= i < c.len() ==> {
            let t = (#[trigger] c[i]).target_id;
            &&& table_has(table, t) || (table.len() == 0 && (confirmed.contains(t) || pov.contains(t)))
            &&& c[i].is_confirmed == confirmed.contains(t)
            &&& c[i].is_point_of_view == pov.contains(t)
        }
    &&& forall|k: int|
        0 <= k < confirmed.len() && cast_ok(confirmed[k], owner, table) ==> has_row_for(c, #[trigger] confirmed[k])
    &&& forall|k: int| 0 <= k < pov.len() && cast_ok(pov[k], owner, table) ==> has_row_for(c, #[trigger] pov[k])
}

/// What every cast is, whatever the batch, the live scan, the pins, the
/// declared points of view and the chapter union: all its rows are the
/// owner's, none for the owner itself, no two for the same entry; each is for
/// an entry the table knows, or for a pin or declared point of view while the
/// table knows none; a row reads as confirmed exactly when the owner pins its
/// entry, and as point of view exactly when the owner declares it; and every
/// acceptable pin and declared point of view has its row. The cast shown is
/// these rows in display order (see [`MentionIndex::cast_for`]).
pub proof fn law_cast_is_the_owners_pins_and_findings(
    rows: Seq<RowView>,
    table: Seq<DiscoverableEntity>,
    owner: u64,
    live: Option<Seq<HitView>>,
    confirmed: Seq<u64>,
    pov: Seq<u64>,
    extra: Seq<u64>,
)
    ensures
        cast_shape(cast_rows(rows, table, owner, live, confirmed, pov, extra), table, owner, confirmed, pov),
{
    let sugg = batch_for(rows, cast_owners(owner, live is Some, extra)) + live_part(live, owner, table);
    let merged = merge_fold(sugg, owner, table);
    lemma_merge_fold_shape(sugg, owner, table);
    let a = inject_fold(merged, confirmed, owner, table);
    lemma_inject_fold_shape(merged, confirmed, owner, table);
    let b = inject_fold(a, pov, owner, table);
    lemma_inject_fold_shape(a, pov, owner, table);
    let c = cast_rows(rows, table, owner, live, confirmed, pov, extra);
    assert(c == flagged(b, confirmed, pov, owner, table));
    assert forall|i: int| 0 <= i < b.len() implies {
        let t = (#[trigger] b[i]).target_id;
        &&& table_has(table, t) || (table.len() == 0 && (confirmed.contains(t) || pov.contains(t)))
        &&& cast_ok(t, owner, table)
    } by {
        if i < a.len() {
            assert(b[i] == a[i]);
            if i < merged.len() {
                assert(a[i] == merged[i]);
            }
        }
    }
    assert forall|i: int| 0 <= i < c.len() implies (#[trigger] c[i]).target_id == b[i].target_id
        && c[i].owner_id == b[i].owner_id by {}
    assert forall|k: int| 0 <= k < confirmed.len() && cast_ok(confirmed[k], owner, table) implies has_row_for(
        c,
        #[trigger] confirmed[k],
    ) by {
        let i = choose|i: int| 0 <= i < a.len() && (#[trigger] a[i]).target_id == confirmed[k];
        assert(b[i] == a[i]);
        assert(c[i].target_id == b[i].target_id);
    }
    assert forall|k: int| 0 <= k < pov.len() && cast_ok(pov[k], owner, table) implies has_row_for(c, #[trigger] pov[k]) by {
        let i = choose|i: int| 0 <= i < b.len() && (#[trigger] b[i]).target_id == pov[k];
        assert(c[i].target_id == b[i].target_id);
    }
}


/// The cast as shown keeps that shape: whatever order its rows come in (see
/// [`MentionIndex::cast_for`], which returns the rows of [`cast_rows`] in
/// display order), they are the owner's, once per entry, flagged from the
/// pins and declared points of view alone, and every acceptable pin and
/// declared point of view is among them.
pub proof fn law_the_shown_cast_is_the_owners_pins_and_findings(
    shown: Seq<RowView>,
    rows: Seq<RowView>,
    table: Seq<DiscoverableEntity>,
    owner: u64,
    live: Option<Seq<HitView>>,
    confirmed: Seq<u64>,
    pov: Seq<u64>,
    extra: Seq<u64>,
)
    requires
        shown.to_multiset() == cast_rows(rows, table, owner, live, confirmed, pov, extra).to_multiset(),
    ensures
        cast_shape(shown, table, owner, confirmed, pov),
{
    broadcast use vstd::seq_lib::group_to_multiset_ensures;
    broadcast use vstd::multiset::group_multiset_axioms;

    let c = cast_rows(rows, table, owner, live, confirmed, pov, extra);
    law_cast_is_the_owners_pins_and_findings(rows, table, owner, live, confirmed, pov, extra);
    assert(c.no_duplicates()) by {
        assert forall|i: int, j: int| 0 <= i < c.len() && 0 <= j < c.len() && i != j implies c[i] != c[j] by {
            if i < j {
                assert(c[i].target_id != c[j].target_id);
            } else {
                assert(c[j].target_id != c[i].target_id);
            }
        }
    }
    c.lemma_multiset_has_no_duplicates();
    shown.lemma_multiset_has_no_duplicates_conv();
    assert forall|i: int| 0 <= i < shown.len() implies exists|p: int| 0 <= p < c.len() && c[p] == #[trigger] shown[i] by {
        assert(shown.contains(shown[i]));
        assert(shown.to_multiset().count(shown[i]) > 0);
        assert(c.to_multiset().count(shown[i]) > 0);
        assert(c.contains(shown[i]));
    }
    assert forall|i: int, j: int| 0 <= i < j < shown.len() implies (#[trigger] shown[i]).target_id != (#[trigger] shown[j]).target_id by {
        let p = choose|p: int| 0 <= p < c.len() && c[p] == shown[i];
        let q = choose|q: int| 0 <= q < c.len() && c[q] == shown[j];
        assert(shown[i] != shown[j]);
        if p < q {
            assert(c[p].target_id != c[q].target_id);
        } else if q < p {
            assert(c[q].target_id != c[p].target_id);
        }
    }
    assert forall|i: int| 0 <= i < shown.len() implies {
        let t = (#[trigger] shown[i]).target_id;
        &&& shown[i].owner_id == owner && t != owner
        &&& table_has(table, t) || (table.len() == 0 && (confirmed.contains(t) || pov.contains(t)))
        &&& shown[i].is_confirmed == confirmed.contains(t)
        &&& shown[i].is_point_of_view == pov.contains(t)
    } by {
        let p = choose|p: int| 0 <= p < c.len() && c[p] == shown[i];
        assert(c[p] == shown[i]);
    }
    assert forall|t: u64| has_row_for(c, t) implies has_row_for(shown, t) by {
        let p = choose|p: int| 0 <= p < c.len() && (#[trigger] c[p]).target_id == t;
        assert(c.contains(c[p]));
        assert(c.to_multiset().count(c[p]) > 0);
        assert(shown.to_multiset().count(c[p]) > 0);
        assert(shown.contains(c[p]));
        let i = choose|i: int| 0 <= i < shown.len() && shown[i] == c[p];
        assert(shown[i].target_id == t);
    }
}


/// How many of `hits` name the entry `id`.
pub open spec fn hits_on(hits: Seq<HitView>, id: u64) -> nat
    decreases hits.len(),
{
    if hits.len() == 0 {
        0
    } else {
        hits_on(hits.drop_last(), id) + if hits.last().entity_id == id {
            1nat
        } else {
            0nat
        }
    }
}

proof fn lemma_hits_on_bounds(hits: Seq<HitView>, id: u64)
    ensures
        hits_on(hits, id) <= hits.len(),
        (exists|i: int| 0 <= i < hits.len() && (#[trigger] hits[i]).entity_id == id) ==> hits_on(hits, id) > 0,
    decreases hits.len(),
{
    if hits.len() > 0 {
        lemma_hits_on_bounds(hits.drop_last(), id);
        if exists|i: int| 0 <= i < hits.len() && (#[trigger] hits[i]).entity_id == id {
            let i = choose|i: int| 0 <= i < hits.len() && (#[trigger] hits[i]).entity_id == id;
            if i < hits.len() - 1 {
                assert(hits.drop_last()[i] == hits[i]);
            }
        }
    }
}

proof fn lemma_live_fold_tally(hits: Seq<HitView>, owner: u64, table: Seq<DiscoverableEntity>)
    requires
        hits.len() < i64::MAX,
    ensures
        owned_once(live_fold(hits, owner, table), owner),
        forall|k: int|
            0 <= k < live_fold(hits, owner, table).len() ==> table_has(
                table,
                (#[trigger] live_fold(hits, owner, table)[k]).target_id,
            ) && live_fold(hits, owner, table)[k].hit_count == hits_on(hits, live_fold(hits, owner, table)[k].target_id),
        forall|id: u64|
            id != owner && table_has(table, id) && !has_row_for(live_fold(hits, owner, table), id) ==> #[trigger] hits_on(
                hits,
                id,
            ) == 0,
    decreases hits.len(),
{
    let lf = live_fold(hits, owner, table);
    if hits.len() > 0 {
        let pre = hits.drop_last();
        let prev = live_fold(pre, owner, table);
        let h = hits.last();
        lemma_live_fold_tally(pre, owner, table);
        if h.entity_id == owner || !table_has(table, h.entity_id) {
            assert(lf == prev);
            assert forall|k: int| 0 <= k < lf.len() implies table_has(table, (#[trigger] lf[k]).target_id)
                && lf[k].hit_count == hits_on(hits, lf[k].target_id) by {
                assert(lf[k].target_id != h.entity_id);
            }
            assert forall|id: u64|
                id != owner && table_has(table, id) && !has_row_for(lf, id) implies #[trigger] hits_on(hits, id)
                == 0 by {
                assert(id != h.entity_id);
                assert(hits_on(hits, id) == hits_on(pre, id));
                assert(hits_on(pre, id) == 0);
            }
        } else {
            let k0 = idx_of(prev, h.entity_id);
            lemma_idx_of_has(prev, h.entity_id);
            lemma_idx_of_range(prev, h.entity_id);
            lemma_hits_on_bounds(pre, h.entity_id);
            if k0 >= 0 {
                let nr = RowView { hit_count: (prev[k0].hit_count + 1) as i64, ..prev[k0] };
                assert(lf == prev.update(k0, nr));
                assert(prev[k0].hit_count + 1 <= i64::MAX);
                assert forall|i: int| 0 <= i < lf.len() implies (#[trigger] lf[i]).owner_id == owner
                    && lf[i].target_id != owner by {
                    assert(lf[i].target_id == prev[i].target_id);
                }
                assert forall|i: int, j: int| 0 <= i < j < lf.len() implies (#[trigger] lf[i]).target_id
                    != (#[trigger] lf[j]).target_id by {
                    assert(lf[i].target_id == prev[i].target_id);
                    assert(lf[j].target_id == prev[j].target_id);
                }
                assert forall|k: int| 0 <= k < lf.len() implies table_has(table, (#[trigger] lf[k]).target_id)
                    && lf[k].hit_count == hits_on(hits, lf[k].target_id) by {
                    assert(lf[k].target_id == prev[k].target_id);
                    if k != k0 {
                        assert(prev[k].target_id != prev[k0].target_id);
                    }
                }
                assert forall|id: u64|
                    id != owner && table_has(table, id) && !has_row_for(lf, id) implies #[trigger] hits_on(
                        hits,
                        id,
                    ) == 0 by {
                    if has_row_for(prev, id) {
                        let i = choose|i: int| 0 <= i < prev.len() && (#[trigger] prev[i]).target_id == id;
                        assert(lf[i].target_id == id);
                    }
                    assert(id != h.entity_id);
                    assert(hits_on(hits, id) == hits_on(pre, id));
                    assert(hits_on(pre, id) == 0);
                }
            } else {
                let nr = live_row(owner, h, table);
                assert(lf == prev.push(nr));
                assert(hits_on(pre, h.entity_id) == 0);
                assert forall|i: int| 0 <= i < lf.len() implies (#[trigger] lf[i]).owner_id == owner
                    && lf[i].target_id != owner by {
                    if i < prev.len() {
                        assert(lf[i] == prev[i]);
                    }
                }
                assert forall|i: int, j: int| 0 <= i < j < lf.len() implies (#[trigger] lf[i]).target_id
                    != (#[trigger] lf[j]).target_id by {
                    assert(lf[i] == prev[i]);
                    if j < prev.len() {
                        assert(lf[j] == prev[j]);
                    } else {
                        assert(!has_row_for(prev, h.entity_id));
                    }
                }
                assert forall|k: int| 0 <= k < lf.len() implies table_has(table, (#[trigger] lf[k]).target_id)
                    && lf[k].hit_count == hits_on(hits, lf[k].target_id) by {
                    if k < prev.len() {
                        assert(lf[k] == prev[k]);
                        assert(!has_row_for(prev, h.entity_id));
                        assert(prev[k].target_id != h.entity_id);
                    }
                }
                assert forall|id: u64|
                    id != owner && table_has(table, id) && !has_row_for(lf, id) implies #[trigger] hits_on(
                        hits,
                        id,
                    ) == 0 by {
                    if has_row_for(prev, id) {
                        let i = choose|i: int| 0 <= i < prev.len() && (#[trigger] prev[i]).target_id == id;
                        assert(lf[i] == prev[i]);
                    }
                    if id == h.entity_id {
                        assert(lf[prev.len() as int].target_id == id);
                    }
                    assert(hits_on(hits, id) == hits_on(pre, id));
                    assert(hits_on(pre, id) == 0);
                }
            }
        }
    }
}

/// A live rescan counts every hit: each row it gives holds, as its count, the
/// number of hits naming its entry; every hit on an entry the table knows
/// (other than the owner itself) has its row; and the rows are the owner's,
/// one per entry.
pub proof fn law_live_rows_count_every_hit(hits: Seq<HitView>, owner: u64, table: Seq<DiscoverableEntity>)
    requires
        hits.len() < i64::MAX,
    ensures
        owned_once(live_fold(hits, owner, table), owner),
        forall|k: int|
            0 <= k < live_fold(hits, owner, table).len() ==> (#[trigger] live_fold(hits, owner, table)[k]).hit_count
                == hits_on(hits, live_fold(hits, owner, table)[k].target_id),
        forall|i: int|
            0 <= i < hits.len() && hits[i].entity_id != owner && table_has(table, hits[i].entity_id) ==> has_row_for(
                live_fold(hits, owner, table),
                (#[trigger] hits[i]).entity_id,
            ),
{
    lemma_live_fold_tally(hits, owner, table);
    let lf = live_fold(hits, owner, table);
    assert forall|i: int|
        0 <= i < hits.len() && hits[i].entity_id != owner && table_has(table, hits[i].entity_id) implies has_row_for(
        lf,
        (#[trigger] hits[i]).entity_id,
    ) by {
        lemma_hits_on_bounds(hits, hits[i].entity_id);
    }
}

proof fn lemma_merge_fold_max(sugg: Seq<RowView>, owner: u64, table: Seq<DiscoverableEntity>)
    ensures
        forall|j: int|
            0 <= j < sugg.len() && sugg[j].target_id != owner && table_has(table, sugg[j].target_id) ==> has_row_for(
                merge_fold(sugg, owner, table),
                (#[trigger] sugg[j]).target_id,
            ),
        forall|k: int, j: int|
            0 <= k < merge_fold(sugg, owner, table).len() && 0 <= j < sugg.len() && (#[trigger] sugg[j]).target_id
                == (#[trigger] merge_fold(sugg, owner, table)[k]).target_id ==> sugg[j].hit_count <= merge_fold(
                sugg,
                owner,
                table,
            )[k].hit_count,
        forall|k: int|
            0 <= k < merge_fold(sugg, owner, table).len() ==> exists|j: int|
                0 <= j < sugg.len() && (#[trigger] sugg[j]).target_id == (#[trigger] merge_fold(sugg, owner, table)[k]).target_id
                    && sugg[j].hit_count == merge_fold(sugg, owner, table)[k].hit_count,
    decreases sugg.len(),
{
    let mf = merge_fold(sugg, owner, table);
    lemma_merge_fold_shape(sugg, owner, table);
    if sugg.len() > 0 {
        let pre = sugg.drop_last();
        let prev = merge_fold(pre, owner, table);
        let r = sugg.last();
        let last = sugg.len() - 1;
        lemma_merge_fold_max(pre, owner, table);
        lemma_merge_fold_shape(pre, owner, table);
        assert forall|j: int| 0 <= j < last implies #[trigger] sugg[j] == pre[j] by {}
        if r.target_id == owner || !table_has(table, r.target_id) {
            assert(mf == prev);
            assert forall|j: int|
                0 <= j < sugg.len() && sugg[j].target_id != owner && table_has(table, sugg[j].target_id) implies has_row_for(
                mf,
                (#[trigger] sugg[j]).target_id,
            ) by {
                assert(j < last);
                assert(pre[j] == sugg[j]);
            }
            assert forall|k: int, j: int|
                0 <= k < mf.len() && 0 <= j < sugg.len() && (#[trigger] sugg[j]).target_id == (#[trigger] mf[k]).target_id implies sugg[j].hit_count
                <= mf[k].hit_count by {
                if j == last {
                    assert(table_has(table, mf[k].target_id));
                    assert(mf[k].target_id != owner);
                } else {
                    assert(pre[j] == sugg[j]);
                }
            }
            assert forall|k: int| 0 <= k < mf.len() implies exists|j: int|
                0 <= j < sugg.len() && (#[trigger] sugg[j]).target_id == (#[trigger] mf[k]).target_id && sugg[j].hit_count
                    == mf[k].hit_count by {
                let j = choose|j: int|
                    0 <= j < pre.len() && (#[trigger] pre[j]).target_id == (#[trigger] prev[k]).target_id
                        && pre[j].hit_count == prev[k].hit_count;
                assert(sugg[j] == pre[j]);
            }
        } else {
            let k0 = idx_of(prev, r.target_id);
            lemma_idx_of_has(prev, r.target_id);
            lemma_idx_of_range(prev, r.target_id);
            if k0 >= 0 {
                let nr = merge_step(prev[k0], r);
                assert(mf == prev.update(k0, nr));
                assert forall|j: int|
                    0 <= j < sugg.len() && sugg[j].target_id != owner && table_has(table, sugg[j].target_id) implies has_row_for(
                    mf,
                    (#[trigger] sugg[j]).target_id,
                ) by {
                    if j < last {
                        assert(pre[j] == sugg[j]);
                        let i = choose|i: int| 0 <= i < prev.len() && (#[trigger] prev[i]).target_id == sugg[j].target_id;
                        assert(mf[i].target_id == prev[i].target_id);
                    } else {
                        assert(mf[k0].target_id == r.target_id);
                    }
                }
                assert forall|k: int, j: int|
                    0 <= k < mf.len() && 0 <= j < sugg.len() && (#[trigger] sugg[j]).target_id == (#[trigger] mf[k]).target_id implies sugg[j].hit_count
                    <= mf[k].hit_count by {
                    assert(mf[k].target_id == prev[k].target_id);
                    if j < last {
                        assert(pre[j] == sugg[j]);
                        assert(sugg[j].hit_count <= prev[k].hit_count);
                    } else if k != k0 {
                        assert(prev[k].target_id != prev[k0].target_id);
                    }
                }
                assert forall|k: int| 0 <= k < mf.len() implies exists|j: int|
                    0 <= j < sugg.len() && (#[trigger] sugg[j]).target_id == (#[trigger] mf[k]).target_id && sugg[j].hit_count
                        == mf[k].hit_count by {
                    let j = choose|j: int|
                        0 <= j < pre.len() && (#[trigger] pre[j]).target_id == (#[trigger] prev[k]).target_id
                            && pre[j].hit_count == prev[k].hit_count;
                    assert(sugg[j] == pre[j]);
                    if k == k0 && nr.hit_count != prev[k0].hit_count {
                        assert(sugg[last] == r);
                        assert(sugg[last].target_id == mf[k].target_id && sugg[last].hit_count == mf[k].hit_count);
                    } else {
                        assert(sugg[j].target_id == mf[k].target_id && sugg[j].hit_count == mf[k].hit_count);
                    }
                }
            } else {
                let nr = RowView { owner_id: owner, is_confirmed: false, ..r };
                assert(mf == prev.push(nr));
                assert forall|j: int|
                    0 <= j < sugg.len() && sugg[j].target_id != owner && table_has(table, sugg[j].target_id) implies has_row_for(
                    mf,
                    (#[trigger] sugg[j]).target_id,
                ) by {
                    if j < last {
                        assert(pre[j] == sugg[j]);
                        let i = choose|i: int| 0 <= i < prev.len() && (#[trigger] prev[i]).target_id == sugg[j].target_id;
                        assert(mf[i] == prev[i]);
                    } else {
                        assert(mf[prev.len() as int].target_id == r.target_id);
                    }
                }
                assert forall|k: int, j: int|
                    0 <= k < mf.len() && 0 <= j < sugg.len() && (#[trigger] sugg[j]).target_id == (#[trigger] mf[k]).target_id implies sugg[j].hit_count
                    <= mf[k].hit_count by {
                    if k < prev.len() {
                        assert(mf[k] == prev[k]);
                        if j < last {
                            assert(pre[j] == sugg[j]);
                        } else {
                            assert(prev[k].target_id != r.target_id);
                        }
                    } else if j < last {
                        assert(pre[j] == sugg[j]);
                        assert(pre[j].target_id == r.target_id);
                        assert(has_row_for(prev, pre[j].target_id));
                    }
                }
                assert forall|k: int| 0 <= k < mf.len() implies exists|j: int|
                    0 <= j < sugg.len() && (#[trigger] sugg[j]).target_id == (#[trigger] mf[k]).target_id && sugg[j].hit_count
                        == mf[k].hit_count by {
                    if k < prev.len() {
                        assert(mf[k] == prev[k]);
                        let j = choose|j: int|
                            0 <= j < pre.len() && (#[trigger] pre[j]).target_id == (#[trigger] prev[k]).target_id
                                && pre[j].hit_count == prev[k].hit_count;
                        assert(sugg[j] == pre[j]);
                    } else {
                        assert(sugg[last] == r);
                        assert(sugg[last].target_id == mf[k].target_id && sugg[last].hit_count == mf[k].hit_count);
                    }
                }
            }
        }
    }
}

/// Merging suggestions keeps the largest count: each merged row's count is
/// the largest count any suggestion for its entry carried, and each
/// suggestion for an entry the table knows (other than the owner) has its
/// merged row.
pub proof fn law_merged_rows_keep_the_largest_count(sugg: Seq<RowView>, owner: u64, table: Seq<DiscoverableEntity>)
    ensures
        forall|j: int|
            0 <= j < sugg.len() && sugg[j].target_id != owner && table_has(table, sugg[j].target_id) ==> has_row_for(
                merge_fold(sugg, owner, table),
                (#[trigger] sugg[j]).target_id,
            ),
        forall|k: int, j: int|
            0 <= k < merge_fold(sugg, owner, table).len() && 0 <= j < sugg.len() && (#[trigger] sugg[j]).target_id
                == (#[trigger] merge_fold(sugg, owner, table)[k]).target_id ==> sugg[j].hit_count <= merge_fold(
                sugg,
                owner,
                table,
            )[k].hit_count,
        forall|k: int|
            0 <= k < merge_fold(sugg, owner, table).len() ==> exists|j: int|
                0 <= j < sugg.len() && (#[trigger] sugg[j]).target_id == (#[trigger] merge_fold(sugg, owner, table)[k]).target_id
                    && sugg[j].hit_count == merge_fold(sugg, owner, table)[k].hit_count,
{
    lemma_merge_fold_max(sugg, owner, table);
}


/// Whether hit `i` of `hits` is the first to name `id`.
pub open spec fn first_naming(hits: Seq<HitView>, id: u64, i: int) -> bool {
    &&& 0 <= i < hits.len()
    &&& hits[i].entity_id == id
    &&& forall|j: int| 0 <= j < i ==> (#[trigger] hits[j]).entity_id != id
}

/// Whether row `r` reads from the first hit naming its entry: that hit's
/// name, sentence and title match, the entry's title from the table, and
/// neither flag set.
pub open spec fn reads_first_hit(hits: Seq<HitView>, table: Seq<DiscoverableEntity>, r: RowView) -> bool {
    exists|i: int|
        #![trigger first_naming(hits, r.target_id, i)]
        first_naming(hits, r.target_id, i) && r.title == table_title(table, r.target_id) && r.matched_names
            == seq![hits[i].matched_name] && r.is_title_match == hits[i].is_title_match && r.evidence
            == hits[i].evidence && !r.is_confirmed && !r.is_point_of_view
}

proof fn lemma_live_fold_first(hits: Seq<HitView>, owner: u64, table: Seq<DiscoverableEntity>)
    requires
        hits.len() < i64::MAX,
    ensures
        forall|k: int|
            0 <= k < live_fold(hits, owner, table).len() ==> reads_first_hit(
                hits,
                table,
                #[trigger] live_fold(hits, owner, table)[k],
            ),
    decreases hits.len(),
{
    let lf = live_fold(hits, owner, table);
    if hits.len() > 0 {
        let pre = hits.drop_last();
        let prev = live_fold(pre, owner, table);
        let h = hits.last();
        let last = hits.len() - 1;
        lemma_live_fold_first(pre, owner, table);
        lemma_live_fold_tally(pre, owner, table);
        assert forall|j: int| 0 <= j < last implies #[trigger] hits[j] == pre[j] by {}
        assert forall|k: int| 0 <= k < lf.len() implies reads_first_hit(hits, table, #[trigger] lf[k]) by {
            let excluded = h.entity_id == owner || !table_has(table, h.entity_id);
            let k0 = idx_of(prev, h.entity_id);
            lemma_idx_of_has(prev, h.entity_id);
            lemma_idx_of_range(prev, h.entity_id);
            if excluded || k0 >= 0 || k < prev.len() {
                assert(reads_first_hit(pre, table, prev[k]));
                let i = choose|i: int|
                    #![trigger first_naming(pre, prev[k].target_id, i)]
                    first_naming(pre, prev[k].target_id, i) && prev[k].title == table_title(table, prev[k].target_id)
                        && prev[k].matched_names == seq![pre[i].matched_name] && prev[k].is_title_match
                        == pre[i].is_title_match && prev[k].evidence == pre[i].evidence && !prev[k].is_confirmed
                        && !prev[k].is_point_of_view;
                assert(lf[k].target_id == prev[k].target_id);
                assert(lf[k].title == prev[k].title && lf[k].matched_names == prev[k].matched_names
                    && lf[k].is_title_match == prev[k].is_title_match && lf[k].evidence == prev[k].evidence
                    && lf[k].is_confirmed == prev[k].is_confirmed && lf[k].is_point_of_view
                    == prev[k].is_point_of_view);
                assert(hits[i] == pre[i]);
                assert forall|j: int| 0 <= j < i implies (#[trigger] hits[j]).entity_id != lf[k].target_id by {
                    assert(hits[j] == pre[j]);
                }
                assert(first_naming(hits, lf[k].target_id, i));
            } else {
                assert(k == prev.len());
                assert(lf[k] == live_row(owner, h, table));
                lemma_hits_on_bounds(pre, h.entity_id);
                assert(!has_row_for(prev, h.entity_id));
                assert(hits_on(pre, h.entity_id) == 0);
                assert forall|j: int| 0 <= j < last implies (#[trigger] hits[j]).entity_id != h.entity_id by {
                    assert(hits[j] == pre[j]);
                    if pre[j].entity_id == h.entity_id {
                        assert(exists|i: int| 0 <= i < pre.len() && (#[trigger] pre[i]).entity_id == h.entity_id);
                    }
                }
                assert(first_naming(hits, lf[k].target_id, last));
            }
        }
    }
}

/// Each row of a live rescan reads from the first hit naming its entry: that
/// hit's name and sentence, whether it matched the title, and the entry's
/// title from the table; a live row is neither pinned nor a point of view
/// until the cast flags it.
pub proof fn law_live_rows_read_the_first_hit(hits: Seq<HitView>, owner: u64, table: Seq<DiscoverableEntity>)
    requires
        hits.len() < i64::MAX,
    ensures
        forall|k: int|
            0 <= k < live_fold(hits, owner, table).len() ==> reads_first_hit(
                hits,
                table,
                #[trigger] live_fold(hits, owner, table)[k],
            ),
{
    lemma_live_fold_first(hits, owner, table);
}

/// Folding one more suggestion into a merged row keeps the row's entry,
/// owner, title and flags; its count becomes the larger of the two; it keeps
/// the sentence it has, taking the suggestion's only while it has none; and
/// a title match, once either side has one, is kept unless the row takes the
/// suggestion's sentence and names with it.
pub proof fn law_merging_a_suggestion(acc: RowView, row: RowView)
    ensures
        ({
            let m = merge_step(acc, row);
            &&& m.owner_id == acc.owner_id && m.target_id == acc.target_id && m.title == acc.title
            &&& m.is_confirmed == acc.is_confirmed && m.is_point_of_view == acc.is_point_of_view
            &&& m.hit_count >= acc.hit_count && m.hit_count >= row.hit_count
            &&& (m.hit_count == acc.hit_count || m.hit_count == row.hit_count)
            &&& acc.evidence.len() > 0 ==> m.evidence == acc.evidence
            &&& acc.evidence.len() == 0 ==> m.evidence == row.evidence
            &&& (acc.evidence.len() > 0 || row.evidence.len() == 0) ==> m.is_title_match == (acc.is_title_match
                || row.is_title_match)
            &&& m.matched_names == acc.matched_names || m.matched_names == row.matched_names
        }),
{
}

} // verus!
