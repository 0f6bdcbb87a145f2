//! The mention index: who is named where across the whole work, as the last
//! completed scan reported it, and the per-item rosters, casts and backlinks
//! read from it.
//!
//! The scan itself, and the live rescan of the focused item's prose, are the
//! app's own matcher; the index takes their results as rows and hits and
//! decides everything else: which rows survive, how suggestions merge, which
//! flags a row carries and in what order the rows are shown.

use vstd::prelude::*;
use crate::order::{
    seq_lt, lemma_seq_lt_asym, lemma_seq_lt_trans, lemma_seq_lt_total, compare_strings, keeps_ties,
    lemma_keeps_ties_step,
};
use crate::text::{chars_of, string_from_chars};

verus! {

/// One row of the index, as the Inspector shows it.
#[derive(Debug, PartialEq, Eq)]
pub struct MentionRow {
    /// The item whose prose the name was found in.
    pub owner_id: u64,
    /// The story-bible item that was named.
    pub target_id: u64,
    pub title: String,
    /// Every distinct name of the target that matched in this document, in the
    /// order they were first met.
    pub matched_names: Vec<String>,
    pub is_title_match: bool,
    pub hit_count: i64,
    /// A persisted `references` entry, as opposed to a suggestion the scan derived.
    pub is_confirmed: bool,
    /// A persisted `point_of_view` entry.
    pub is_point_of_view: bool,
    /// The sentence the first hit sits in.
    pub evidence: String,
}

/// A row as a value.
pub struct RowView {
    pub owner_id: u64,
    pub target_id: u64,
    pub title: Seq<char>,
    pub matched_names: Seq<Seq<char>>,
    pub is_title_match: bool,
    pub hit_count: i64,
    pub is_confirmed: bool,
    pub is_point_of_view: bool,
    pub evidence: Seq<char>,
}

/// The characters of each string of `ss`.
pub open spec fn strings_view(ss: Seq<String>) -> Seq<Seq<char>> {
    ss.map_values(|s: String| s@)
}

impl View for MentionRow {
    type V = RowView;

    open spec fn view(&self) -> RowView {
        RowView {
            owner_id: self.owner_id,
            target_id: self.target_id,
            title: self.title@,
            matched_names: strings_view(self.matched_names@),
            is_title_match: self.is_title_match,
            hit_count: self.hit_count,
            is_confirmed: self.is_confirmed,
            is_point_of_view: self.is_point_of_view,
            evidence: self.evidence@,
        }
    }
}

/// The rows of `rows`, each as a value.
pub open spec fn rows_view(rows: Seq<MentionRow>) -> Seq<RowView> {
    rows.map_values(|r: MentionRow| r@)
}

/// `ss` joined with `sep` between each two.
pub open spec fn join(ss: Seq<Seq<char>>, sep: Seq<char>) -> Seq<char>
    decreases ss.len(),
{
    if ss.len() == 0 {
        Seq::empty()
    } else if ss.len() == 1 {
        ss[0]
    } else {
        join(ss.drop_last(), sep) + sep + ss.last()
    }
}

/// A copy of `v`, string by string.
pub fn copy_strings(v: &Vec<String>) -> (out: Vec<String>)
    ensures
        out@ == v@,
{
    let mut out: Vec<String> = Vec::new();
    let mut i: usize = 0;
    while i < v.len()
        invariant
            0 <= i <= v@.len(),
            out@ == v@.take(i as int),
        decreases v@.len() - i,
    {
        out.push(v[i].clone());
        proof {
            assert(v@.take(i as int + 1) == v@.take(i as int).push(v@[i as int]));
        }
        i = i + 1;
    }
    assert(v@.take(v@.len() as int) == v@);
    out
}

impl MentionRow {
    /// A field-for-field copy.
    pub fn copy(&self) -> (out: MentionRow)
        ensures
            out@ == self@,
    {
        MentionRow {
            owner_id: self.owner_id,
            target_id: self.target_id,
            title: self.title.clone(),
            matched_names: copy_strings(&self.matched_names),
            is_title_match: self.is_title_match,
            hit_count: self.hit_count,
            is_confirmed: self.is_confirmed,
            is_point_of_view: self.is_point_of_view,
            evidence: self.evidence.clone(),
        }
    }

    /// The matched names as one label: `Lizzy`, or `Elizabeth, Lizzy`.
    pub fn matched_label(&self) -> (label: String)
        ensures
            label@ == join(self@.matched_names, ", "@),
    {
        let sep = chars_of(", ");
        let mut out: Vec<char> = Vec::new();
        let mut i: usize = 0;
        let ghost names = self@.matched_names;
        while i < self.matched_names.len()
            invariant
                0 <= i <= self.matched_names@.len(),
                names == strings_view(self.matched_names@),
                sep@ == ", "@,
                out@ == join(names.take(i as int), ", "@),
            decreases self.matched_names@.len() - i,
        {
            let piece = chars_of(self.matched_names[i].as_str());
            proof {
                assert(names.take(i as int + 1).drop_last() == names.take(i as int));
                assert(names.take(i as int + 1).last() == self.matched_names@[i as int]@);
                if i == 0 {
                    assert(names.take(1) == seq![names[0]]);
                }
            }
            if i > 0 {
                let mut k: usize = 0;
                let ghost before = out@;
                while k < sep.len()
                    invariant
                        0 <= k <= sep@.len(),
                        out@ == before + sep@.take(k as int),
                    decreases sep@.len() - k,
                {
                    out.push(sep[k]);
                    proof {
                        assert(sep@.take(k as int + 1) == sep@.take(k as int).push(sep@[k as int]));
                    }
                    k = k + 1;
                }
                assert(sep@.take(sep@.len() as int) == sep@);
            }
            let mut k: usize = 0;
            let ghost mid = out@;
            while k < piece.len()
                invariant
                    0 <= k <= piece@.len(),
                    out@ == mid + piece@.take(k as int),
                decreases piece@.len() - k,
            {
                out.push(piece[k]);
                proof {
                    assert(piece@.take(k as int + 1) == piece@.take(k as int).push(piece@[k as int]));
                }
                k = k + 1;
            }
            assert(piece@.take(piece@.len() as int) == piece@);
            i = i + 1;
        }
        assert(names.take(names.len() as int) == names);
        string_from_chars(out.as_slice())
    }
}

// ── the order rows are shown in ──────────────────────────────────────────────

/// `a` is shown strictly before `b`: confirmed first, then title matches, then
/// the more frequent name, then by title.
pub open spec fn row_before(a: RowView, b: RowView) -> bool {
    if a.is_confirmed != b.is_confirmed {
        a.is_confirmed
    } else if a.is_title_match != b.is_title_match {
        a.is_title_match
    } else if a.hit_count != b.hit_count {
        a.hit_count > b.hit_count
    } else {
        seq_lt(a.title, b.title)
    }
}

/// What a row is ordered by: confirmation, title match, frequency, title.
pub open spec fn row_key(r: RowView) -> (bool, bool, i64, Seq<char>) {
    (r.is_confirmed, r.is_title_match, r.hit_count, r.title)
}

/// [`row_key`] as a value.
pub open spec fn row_key_fn() -> spec_fn(RowView) -> (bool, bool, i64, Seq<char>) {
    |r: RowView| row_key(r)
}

/// Whether `rows` is in the order rows are shown in.
pub open spec fn rows_sorted(rows: Seq<RowView>) -> bool {
    forall|i: int, j: int| 0 <= i < j < rows.len() ==> !row_before(rows[j], rows[i])
}

proof fn lemma_row_before_asym(a: RowView, b: RowView)
    ensures
        !(row_before(a, b) && row_before(b, a)),
{
    lemma_seq_lt_asym(a.title, b.title);
}

proof fn lemma_row_before_trans(a: RowView, b: RowView, c: RowView)
    requires
        row_before(a, b),
        row_before(b, c),
    ensures
        row_before(a, c),
{
    if a.is_confirmed == b.is_confirmed && b.is_confirmed == c.is_confirmed
        && a.is_title_match == b.is_title_match && b.is_title_match == c.is_title_match
        && a.hit_count == b.hit_count && b.hit_count == c.hit_count {
        lemma_seq_lt_trans(a.title, b.title, c.title);
    }
}

/// Whether `a` is shown strictly before `b`.
fn is_before(a: &MentionRow, b: &MentionRow) -> (r: bool)
    ensures
        r == row_before(a@, b@),
{
    if a.is_confirmed != b.is_confirmed {
        a.is_confirmed
    } else if a.is_title_match != b.is_title_match {
        a.is_title_match
    } else if a.hit_count != b.hit_count {
        a.hit_count > b.hit_count
    } else {
        compare_strings(&a.title, &b.title) == -1
    }
}

/// The rows in the order they are shown in: confirmed first, then title
/// matches, then by how often the name appears, then by title; rows that
/// compare equal keep the order they came in.
pub fn sorted(rows: Vec<MentionRow>) -> (out: Vec<MentionRow>)
    ensures
        rows_view(out@).to_multiset() == rows_view(rows@).to_multiset(),
        out@.len() == rows@.len(),
        rows_sorted(rows_view(out@)),
        keeps_ties(rows_view(rows@), rows_view(out@), row_key_fn()),
{
    broadcast use vstd::seq_lib::group_to_multiset_ensures;

    let mut out: Vec<MentionRow> = Vec::new();
    let ghost total = rows_view(rows@);
    let mut i: usize = 0;
    assert(total.take(0) =~= rows_view(out@));
    while i < rows.len()
        invariant
            0 <= i <= rows@.len(),
            total == rows_view(rows@),
            rows_view(out@).to_multiset() == total.take(i as int).to_multiset(),
            out@.len() == i,
            rows_sorted(rows_view(out@)),
            keeps_ties(total.take(i as int), rows_view(out@), row_key_fn()),
        decreases rows@.len() - i,
    {
        let x = rows[i].copy();
        let mut p: usize = 0;
        while p < out.len() && !is_before(&x, &out[p])
            invariant
                0 <= p <= out@.len(),
                forall|k: int| 0 <= k < p ==> !row_before(x@, (#[trigger] out@[k])@),
            decreases out@.len() - p,
        {
            p = p + 1;
        }
        let ghost before = rows_view(out@);
        proof {
            assert(total.take(i as int + 1) == total.take(i as int).push(x@));
            vstd::seq_lib::to_multiset_build(total.take(i as int), x@);
            assert(x@ == total[i as int]);
            assert forall|j: int| p <= j < before.len() implies row_key_fn()(#[trigger] before[j])
                != row_key_fn()(total[i as int]) by {
                assert(row_before(x@, before[p as int]));
                if row_key(before[j]) == row_key(x@) {
                    if j == p {
                        lemma_seq_lt_asym(x@.title, x@.title);
                    } else {
                        assert(!row_before(before[j], before[p as int]));
                    }
                }
            }
            lemma_keeps_ties_step(total, i as int, before, p as int, row_key_fn());
        }
        out.insert(p, x);
        proof {
            assert(rows_view(out@) == before.insert(p as int, x@));
            vstd::seq_lib::to_multiset_insert(before, p as int, x@);
            assert forall|a: int, b: int| 0 <= a < b < rows_view(out@).len() implies !row_before(
                rows_view(out@)[b],
                rows_view(out@)[a],
            ) by {
                let o = rows_view(out@);
                if a < p && b == p {
                    assert(o[a] == before[a]);
                } else if a == p && b > p {
                    // x sorts strictly before before[p], which sorts no later than before[b - 1].
                    assert(o[b] == before[b - 1]);
                    assert(row_before(x@, before[p as int]));
                    if row_before(before[b - 1], x@) {
                        lemma_row_before_asym(x@, before[p as int]);
                        if b - 1 > p {
                            lemma_row_before_trans(before[b - 1], x@, before[p as int]);
                        }
                    }
                } else if a < p && b > p {
                    assert(o[a] == before[a]);
                    assert(o[b] == before[b - 1]);
                } else if b < p {
                    assert(o[a] == before[a]);
                    assert(o[b] == before[b]);
                } else {
                    assert(o[a] == before[a - 1]);
                    assert(o[b] == before[b - 1]);
                }
            }
        }
        i = i + 1;
    }
    assert(total.take(total.len() as int) == total);
    out
}


/// Whether no two rows share an ordering key.
pub open spec fn row_keys_distinct(rows: Seq<RowView>) -> bool {
    forall|i: int, j: int|
        0 <= i < rows.len() && 0 <= j < rows.len() && i != j ==> row_key(#[trigger] rows[i]) != row_key(
            #[trigger] rows[j],
        )
}

proof fn lemma_keys_differ_ordered(a: RowView, b: RowView)
    requires
        row_key(a) != row_key(b),
    ensures
        row_before(a, b) || row_before(b, a),
{
    lemma_seq_lt_total(a.title, b.title);
}

proof fn lemma_keys_distinct_transfer(a: Seq<RowView>, o: Seq<RowView>)
    requires
        a.to_multiset() == o.to_multiset(),
        row_keys_distinct(a),
    ensures
        row_keys_distinct(o),
{
    broadcast use vstd::seq_lib::group_to_multiset_ensures;
    assert forall|i: int, j: int|
        0 <= i < o.len() && 0 <= j < o.len() && i != j implies row_key(#[trigger] o[i]) != row_key(#[trigger] o[j]) by {
        if row_key(o[i]) == row_key(o[j]) {
            let v = o[i];
            let w = o[j];
            assert(o.to_multiset().count(v) > 0);
            assert(o.to_multiset().count(w) > 0);
            assert(a.contains(v));
            assert(a.contains(w));
            let x = choose|x: int| 0 <= x < a.len() && a[x] == v;
            let y = choose|y: int| 0 <= y < a.len() && a[y] == w;
            assert(x == y);
            assert(v == w);
            let oi = o.remove(i);
            vstd::seq_lib::to_multiset_remove(o, i);
            let jj = if j < i { j } else { j - 1 };
            assert(oi[jj] == v);
            assert(oi.to_multiset().count(v) > 0);
            assert(a.to_multiset().count(v) >= 2);
            let ax = a.remove(x);
            vstd::seq_lib::to_multiset_remove(a, x);
            assert(ax.to_multiset().count(v) > 0);
            assert(ax.contains(v));
            let z = choose|z: int| 0 <= z < ax.len() && ax[z] == v;
            let zz = if z < x { z } else { z + 1 };
            assert(a[zz] == v);
            assert(zz != x);
        }
    }
}

proof fn lemma_sorted_rows_unique(p: Seq<RowView>, q: Seq<RowView>)
    requires
        rows_sorted(p),
        rows_sorted(q),
        row_keys_distinct(p),
        row_keys_distinct(q),
        p.to_multiset() == q.to_multiset(),
    ensures
        p == q,
    decreases p.len(),
{
    broadcast use vstd::seq_lib::group_to_multiset_ensures;
    vstd::seq_lib::to_multiset_len(p);
    vstd::seq_lib::to_multiset_len(q);
    if p.len() > 0 {
        assert(p.to_multiset().count(p[0]) > 0);
        assert(q.to_multiset().count(q[0]) > 0);
        assert(q.contains(p[0]));
        assert(p.contains(q[0]));
        let k = choose|k: int| 0 <= k < q.len() && q[k] == p[0];
        let m = choose|m: int| 0 <= m < p.len() && p[m] == q[0];
        if row_key(p[0]) != row_key(q[0]) {
            lemma_keys_differ_ordered(p[0], q[0]);
            if row_before(p[0], q[0]) {
                assert(k != 0);
                assert(!row_before(q[k], q[0]));
            } else {
                assert(m != 0);
                assert(!row_before(p[m], p[0]));
            }
        }
        assert(k == 0) by {
            if k != 0 {
                assert(row_key(q[k]) == row_key(q[0]));
            }
        }
        assert(p[0] == q[0]);
        let p1 = p.drop_first();
        let q1 = q.drop_first();
        vstd::seq_lib::to_multiset_remove(p, 0);
        vstd::seq_lib::to_multiset_remove(q, 0);
        assert(p.remove(0) == p1);
        assert(q.remove(0) == q1);
        assert(rows_sorted(p1)) by {
            assert forall|i: int, j: int| 0 <= i < j < p1.len() implies !row_before(p1[j], p1[i]) by {
                assert(p1[i] == p[i + 1] && p1[j] == p[j + 1]);
            }
        }
        assert(rows_sorted(q1)) by {
            assert forall|i: int, j: int| 0 <= i < j < q1.len() implies !row_before(q1[j], q1[i]) by {
                assert(q1[i] == q[i + 1] && q1[j] == q[j + 1]);
            }
        }
        assert(row_keys_distinct(p1)) by {
            assert forall|i: int, j: int|
                0 <= i < p1.len() && 0 <= j < p1.len() && i != j implies row_key(#[trigger] p1[i]) != row_key(
                #[trigger] p1[j],
            ) by {
                assert(p1[i] == p[i + 1] && p1[j] == p[j + 1]);
            }
        }
        assert(row_keys_distinct(q1)) by {
            assert forall|i: int, j: int|
                0 <= i < q1.len() && 0 <= j < q1.len() && i != j implies row_key(#[trigger] q1[i]) != row_key(
                #[trigger] q1[j],
            ) by {
                assert(q1[i] == q[i + 1] && q1[j] == q[j + 1]);
            }
        }
        lemma_sorted_rows_unique(p1, q1);
        assert(p == seq![p[0]] + p1);
        assert(q == seq![q[0]] + q1);
    } else {
        assert(p =~= q);
    }
}

/// Sorting decides the order alone: two orderings of the same rows, no two
/// of which share an ordering key, sort to the same list. `a` and `b` are the
/// rows as they came; `oa` and `ob` any lists [`sorted`] may give for them.
pub proof fn law_sorting_ignores_arrival_order(a: Seq<RowView>, b: Seq<RowView>, oa: Seq<RowView>, ob: Seq<RowView>)
    requires
        a.to_multiset() == b.to_multiset(),
        row_keys_distinct(a),
        oa.to_multiset() == a.to_multiset(),
        rows_sorted(oa),
        ob.to_multiset() == b.to_multiset(),
        rows_sorted(ob),
    ensures
        oa == ob,
{
    lemma_keys_distinct_transfer(a, oa);
    lemma_keys_distinct_transfer(a, ob);
    lemma_sorted_rows_unique(oa, ob);
}

} // verus!
