//! The open Work's personal dictionary as the settings pane lists it: words
//! kept exactly as typed, listed case-insensitively with the exact spelling as
//! the tie-break, matched exactly.

use vstd::prelude::*;
use crate::order::{seq_lt, compare_strings, lemma_seq_lt_asym, lemma_seq_lt_trans, keeps_ties, lemma_keeps_ties_step};
use crate::text::{lowercase, to_lowercase, str_eq};

verus! {

/// One personal-dictionary word.
#[derive(Debug, Default, PartialEq, Eq)]
pub struct DictWordRow {
    pub id: u64,
    pub word: String,
}

/// Whether `a` is listed strictly before `b`: by lower-cased word, then by
/// the word as typed.
pub open spec fn word_before(a: DictWordRow, b: DictWordRow) -> bool {
    let (la, lb) = (lowercase(a.word@), lowercase(b.word@));
    seq_lt(la, lb) || (la == lb && seq_lt(a.word@, b.word@))
}

/// What a row is listed by: its word.
pub open spec fn word_key_fn() -> spec_fn(DictWordRow) -> Seq<char> {
    |r: DictWordRow| r.word@
}

/// Whether `rows` are in the order they are listed in.
pub open spec fn words_sorted(rows: Seq<DictWordRow>) -> bool {
    forall|i: int, j: int| 0 <= i < j < rows.len() ==> !word_before(#[trigger] rows[j], #[trigger] rows[i])
}

proof fn lemma_word_before_asym(a: DictWordRow, b: DictWordRow)
    ensures
        !(word_before(a, b) && word_before(b, a)),
{
    lemma_seq_lt_asym(lowercase(a.word@), lowercase(b.word@));
    lemma_seq_lt_asym(a.word@, b.word@);
}

proof fn lemma_word_before_trans(a: DictWordRow, b: DictWordRow, c: DictWordRow)
    requires
        word_before(a, b),
        word_before(b, c),
    ensures
        word_before(a, c),
{
    let (la, lb, lc) = (lowercase(a.word@), lowercase(b.word@), lowercase(c.word@));
    if seq_lt(la, lb) && seq_lt(lb, lc) {
        lemma_seq_lt_trans(la, lb, lc);
    } else if seq_lt(la, lb) {
    } else if seq_lt(lb, lc) {
    } else {
        lemma_seq_lt_trans(a.word@, b.word@, c.word@);
    }
}

fn is_word_before(a: &DictWordRow, b: &DictWordRow) -> (r: bool)
    ensures
        r == word_before(*a, *b),
{
    let la = to_lowercase(a.word.as_str());
    let lb = to_lowercase(b.word.as_str());
    let c = compare_strings(&la, &lb);
    proof {
        lemma_seq_lt_asym(la@, lb@);
    }
    if c == -1 {
        true
    } else if c == 1 {
        false
    } else {
        compare_strings(&a.word, &b.word) == -1
    }
}

/// Put `rows` in the order they are listed in. The rows are the same ones;
/// rows tie only when their words are the same.
pub fn sort_rows(rows: &mut Vec<DictWordRow>)
    ensures
        final(rows)@.to_multiset() == old(rows)@.to_multiset(),
        final(rows)@.len() == old(rows)@.len(),
        words_sorted(final(rows)@),
        keeps_ties(old(rows)@, final(rows)@, word_key_fn()),
{
    broadcast use vstd::seq_lib::group_to_multiset_ensures;

    let mut input: Vec<DictWordRow> = Vec::new();
    std::mem::swap(&mut input, rows);
    let total_len = input.len();
    let ghost total = input@;
    let mut out: Vec<DictWordRow> = Vec::new();
    let mut i: usize = 0;
    assert(total.take(0) =~= out@);
    while input.len() > 0
        invariant
            0 <= i <= total.len(),
            total.len() == total_len,
            input@ == total.skip(i as int),
            out@.to_multiset() == total.take(i as int).to_multiset(),
            out@.len() == i,
            words_sorted(out@),
            keeps_ties(total.take(i as int), out@, word_key_fn()),
        decreases input@.len(),
    {
        let x = input.remove(0);
        assert(x == total[i as int]);
        let mut p: usize = 0;
        while p < out.len() && !is_word_before(&x, &out[p])
            invariant
                0 <= p <= out@.len(),
                forall|k: int| 0 <= k < p ==> !word_before(x, #[trigger] out@[k]),
            decreases out@.len() - p,
        {
            p = p + 1;
        }
        let ghost before = out@;
        proof {
            assert(total.take(i as int + 1) == total.take(i as int).push(x));
            vstd::seq_lib::to_multiset_build(total.take(i as int), x);
            assert(input@ == total.skip(i as int + 1));
            assert forall|j: int| p <= j < before.len() implies word_key_fn()(#[trigger] before[j])
                != word_key_fn()(total[i as int]) by {
                assert(word_before(x, before[p as int]));
                if before[j].word@ == x.word@ {
                    if j == p {
                        lemma_seq_lt_asym(lowercase(x.word@), lowercase(x.word@));
                        lemma_seq_lt_asym(x.word@, x.word@);
                    } else {
                        assert(!word_before(before[j], before[p as int]));
                    }
                }
            }
            lemma_keeps_ties_step(total, i as int, before, p as int, word_key_fn());
        }
        out.insert(p, x);
        proof {
            vstd::seq_lib::to_multiset_insert(before, p as int, x);
            assert forall|a: int, b: int| 0 <= a < b < out@.len() implies !word_before(
                #[trigger] out@[b],
                #[trigger] out@[a],
            ) by {
                let o = out@;
                if a < p && b == p {
                    assert(o[a] == before[a]);
                } else if a == p && b > p {
                    assert(o[b] == before[b - 1]);
                    assert(word_before(x, before[p as int]));
                    if word_before(before[b - 1], x) {
                        lemma_word_before_asym(x, before[p as int]);
                        if b - 1 > p {
                            lemma_word_before_trans(before[b - 1], x, before[p as int]);
                        }
                    }
                } else if a < p && b > p {
                    assert(o[a] == before[a]);
                    assert(o[b] == before[b - 1]);
                } else if b < p {
                    assert(o[a] == before[a]);
                    assert(o[b] == before[b]);
                } else {
                    assert(o[a] == before[a - 1]);
                    assert(o[b] == before[b - 1]);
                }
            }
        }
        i = i + 1;
    }
    assert(total.take(total.len() as int) == total);
    *rows = out;
}

/// Whether the dictionary holds `word` exactly as given.
pub fn contains(rows: &[DictWordRow], word: &str) -> (b: bool)
    ensures
        b == exists|k: int| 0 <= k < rows@.len() && (#[trigger] rows@[k]).word@ == word@,
{
    let mut i: usize = 0;
    while i < rows.len()
        invariant
            0 <= i <= rows@.len(),
            forall|k: int| 0 <= k < i ==> (#[trigger] rows@[k]).word@ != word@,
        decreases rows@.len() - i,
    {
        if str_eq(rows[i].word.as_str(), word) {
            return true;
        }
        i = i + 1;
    }
    false
}

/// Of `ids`, those the dictionary still holds, in the order given: what a
/// removal acts on, so a stale id is passed over.
pub fn present_ids(rows: &[DictWordRow], ids: &[u64]) -> (present: Vec<u64>)
    ensures
        present@ == ids@.filter(|id: u64| exists|k: int| 0 <= k < rows@.len() && (#[trigger] rows@[k]).id == id),
{
    let ghost pred = |id: u64| exists|k: int| 0 <= k < rows@.len() && (#[trigger] rows@[k]).id == id;
    let mut present: Vec<u64> = Vec::new();
    let mut i: usize = 0;
    while i < ids.len()
        invariant
            0 <= i <= ids@.len(),
            pred == (|id: u64| exists|k: int| 0 <= k < rows@.len() && (#[trigger] rows@[k]).id == id),
            present@ == ids@.take(i as int).filter(pred),
        decreases ids@.len() - i,
    {
        proof {
            reveal(Seq::filter);
            assert(ids@.take(i as int + 1).drop_last() == ids@.take(i as int));
            assert(ids@.take(i as int + 1).last() == ids@[i as int]);
        }
        let id = ids[i];
        let mut k: usize = 0;
        let mut held = false;
        while k < rows.len()
            invariant
                0 <= k <= rows@.len(),
                held == exists|m: int| 0 <= m < k && (#[trigger] rows@[m]).id == id,
            decreases rows@.len() - k,
        {
            if rows[k].id == id {
                held = true;
            }
            k = k + 1;
        }
        if held {
            present.push(id);
        }
        i = i + 1;
    }
    assert(ids@.take(ids@.len() as int) == ids@);
    present
}

} // verus!
