//! How a column of the Overview table sorts its rows.

use vstd::prelude::*;
use std::cmp::Ordering;
use crate::overview::{
    OverviewRow, type_rank, type_rank_spec, COL_TITLE, COL_TYPE, COL_LABEL, COL_OWN_WORDS,
    COL_TOTAL_WORDS, COL_OPEN_COMMENTS, COL_TOTAL_COMMENTS,
};
use crate::order::{seq_lt, compare_strings, lemma_seq_lt_asym, lemma_seq_lt_total};
use crate::text::{str_eq, lowercase, to_lowercase};

verus! {

/// The column a sort is by; an unknown column id sorts everything equal.
#[derive(Debug, Clone, Copy, PartialEq, Eq)]
pub enum SortColumn {
    Title,
    Label,
    OwnWords,
    TotalWords,
    OpenComments,
    TotalComments,
    Type,
    Unknown,
}

/// The column a column id names.
pub open spec fn column_of(id: Seq<char>) -> SortColumn {
    if id == COL_TITLE@ {
        SortColumn::Title
    } else if id == COL_LABEL@ {
        SortColumn::Label
    } else if id == COL_OWN_WORDS@ {
        SortColumn::OwnWords
    } else if id == COL_TOTAL_WORDS@ {
        SortColumn::TotalWords
    } else if id == COL_OPEN_COMMENTS@ {
        SortColumn::OpenComments
    } else if id == COL_TOTAL_COMMENTS@ {
        SortColumn::TotalComments
    } else if id == COL_TYPE@ {
        SortColumn::Type
    } else {
        SortColumn::Unknown
    }
}

/// The ordering of two strings, as `String::cmp` gives it.
pub open spec fn order_of_seqs(a: Seq<char>, b: Seq<char>) -> Ordering {
    if seq_lt(a, b) {
        Ordering::Less
    } else if a == b {
        Ordering::Equal
    } else {
        Ordering::Greater
    }
}

/// The ordering of two counts.
pub open spec fn order_of_usize(a: usize, b: usize) -> Ordering {
    if a < b {
        Ordering::Less
    } else if a == b {
        Ordering::Equal
    } else {
        Ordering::Greater
    }
}

/// The ordering of two ranks.
pub open spec fn order_of_u8(a: u8, b: u8) -> Ordering {
    if a < b {
        Ordering::Less
    } else if a == b {
        Ordering::Equal
    } else {
        Ordering::Greater
    }
}

/// The ordering of two optional counts: no count sorts below any count.
pub open spec fn order_of_options(a: Option<usize>, b: Option<usize>) -> Ordering {
    match (a, b) {
        (None, None) => Ordering::Equal,
        (None, Some(_)) => Ordering::Less,
        (Some(_), None) => Ordering::Greater,
        (Some(x), Some(y)) => order_of_usize(x, y),
    }
}

/// How column `col` orders `a` against `b`: titles and labels case-insensitively,
/// counts numerically, types by structural rank.
pub open spec fn compare_spec(col: SortColumn, a: OverviewRow, b: OverviewRow) -> Ordering {
    match col {
        SortColumn::Title => order_of_seqs(lowercase(a.title@), lowercase(b.title@)),
        SortColumn::Label => order_of_seqs(lowercase(a.label@), lowercase(b.label@)),
        SortColumn::OwnWords => order_of_options(a.own_words, b.own_words),
        SortColumn::TotalWords => order_of_usize(a.total_words, b.total_words),
        SortColumn::OpenComments => order_of_usize(a.own_comments, b.own_comments),
        SortColumn::TotalComments => order_of_usize(a.total_comments, b.total_comments),
        SortColumn::Type => order_of_u8(
            type_rank_spec(a.role, a.sub_role),
            type_rank_spec(b.role, b.sub_role),
        ),
        SortColumn::Unknown => Ordering::Equal,
    }
}

/// The sort for a column id.
pub fn comparator(col_id: &str) -> (c: SortColumn)
    ensures
        c == column_of(col_id@),
{
    if str_eq(col_id, COL_TITLE) {
        SortColumn::Title
    } else if str_eq(col_id, COL_LABEL) {
        SortColumn::Label
    } else if str_eq(col_id, COL_OWN_WORDS) {
        SortColumn::OwnWords
    } else if str_eq(col_id, COL_TOTAL_WORDS) {
        SortColumn::TotalWords
    } else if str_eq(col_id, COL_OPEN_COMMENTS) {
        SortColumn::OpenComments
    } else if str_eq(col_id, COL_TOTAL_COMMENTS) {
        SortColumn::TotalComments
    } else if str_eq(col_id, COL_TYPE) {
        SortColumn::Type
    } else {
        SortColumn::Unknown
    }
}

fn order_strings(a: &String, b: &String) -> (o: Ordering)
    ensures
        o == order_of_seqs(a@, b@),
{
    let c = compare_strings(a, b);
    if c == -1 {
        Ordering::Less
    } else if c == 0 {
        Ordering::Equal
    } else {
        Ordering::Greater
    }
}

fn order_usize(a: usize, b: usize) -> (o: Ordering)
    ensures
        o == order_of_usize(a, b),
{
    if a < b {
        Ordering::Less
    } else if a == b {
        Ordering::Equal
    } else {
        Ordering::Greater
    }
}

impl SortColumn {
    /// How this column orders `a` against `b`.
    pub fn compare(&self, a: &OverviewRow, b: &OverviewRow) -> (o: Ordering)
        ensures
            o == compare_spec(*self, *a, *b),
    {
        match self {
            SortColumn::Title => order_strings(
                &to_lowercase(a.title.as_str()),
                &to_lowercase(b.title.as_str()),
            ),
            SortColumn::Label => order_strings(
                &to_lowercase(a.label.as_str()),
                &to_lowercase(b.label.as_str()),
            ),
            SortColumn::OwnWords => match (a.own_words, b.own_words) {
                (None, None) => Ordering::Equal,
                (None, Some(_)) => Ordering::Less,
                (Some(_), None) => Ordering::Greater,
                (Some(x), Some(y)) => order_usize(x, y),
            },
            SortColumn::TotalWords => order_usize(a.total_words, b.total_words),
            SortColumn::OpenComments => order_usize(a.own_comments, b.own_comments),
            SortColumn::TotalComments => order_usize(a.total_comments, b.total_comments),
            SortColumn::Type => {
                let x = type_rank(a.role, a.sub_role);
                let y = type_rank(b.role, b.sub_role);
                if x < y {
                    Ordering::Less
                } else if x == y {
                    Ordering::Equal
                } else {
                    Ordering::Greater
                }
            },
            SortColumn::Unknown => Ordering::Equal,
        }
    }
}


/// The count columns order rows by their own count, smallest first: total
/// words by total words, open comments by a row's own open threads, total
/// comments by the threads of the row and everything under it, and own
/// words by own words with a row that carries no prose before any that does.
pub proof fn law_count_columns_order_by_their_counts(a: OverviewRow, b: OverviewRow)
    ensures
        (compare_spec(SortColumn::TotalWords, a, b) == Ordering::Less) == (a.total_words < b.total_words),
        (compare_spec(SortColumn::TotalWords, a, b) == Ordering::Equal) == (a.total_words == b.total_words),
        (compare_spec(SortColumn::OpenComments, a, b) == Ordering::Less) == (a.own_comments < b.own_comments),
        (compare_spec(SortColumn::OpenComments, a, b) == Ordering::Equal) == (a.own_comments == b.own_comments),
        (compare_spec(SortColumn::TotalComments, a, b) == Ordering::Less) == (a.total_comments < b.total_comments),
        (compare_spec(SortColumn::TotalComments, a, b) == Ordering::Equal) == (a.total_comments
            == b.total_comments),
        (compare_spec(SortColumn::OwnWords, a, b) == Ordering::Less) == ((a.own_words is None && b.own_words is Some)
            || (a.own_words is Some && b.own_words is Some && a.own_words.unwrap() < b.own_words.unwrap())),
        (compare_spec(SortColumn::OwnWords, a, b) == Ordering::Equal) == (a.own_words == b.own_words),
{
}

/// The title and label columns order rows by their text lowercased, in
/// character order; rows whose lowercased text is the same tie.
pub proof fn law_text_columns_order_case_insensitively(a: OverviewRow, b: OverviewRow)
    ensures
        (compare_spec(SortColumn::Title, a, b) == Ordering::Less) == seq_lt(lowercase(a.title@), lowercase(b.title@)),
        (compare_spec(SortColumn::Title, a, b) == Ordering::Equal) == (lowercase(a.title@) == lowercase(b.title@)),
        (compare_spec(SortColumn::Label, a, b) == Ordering::Less) == seq_lt(lowercase(a.label@), lowercase(b.label@)),
        (compare_spec(SortColumn::Label, a, b) == Ordering::Equal) == (lowercase(a.label@) == lowercase(b.label@)),
{
    lemma_seq_lt_asym(lowercase(a.title@), lowercase(b.title@));
    lemma_seq_lt_asym(lowercase(a.label@), lowercase(b.label@));
}

/// The type column orders rows by their structural rank, and an unknown
/// column ties every pair.
pub proof fn law_type_column_orders_by_rank(a: OverviewRow, b: OverviewRow)
    ensures
        (compare_spec(SortColumn::Type, a, b) == Ordering::Less) == (type_rank_spec(a.role, a.sub_role)
            < type_rank_spec(b.role, b.sub_role)),
        (compare_spec(SortColumn::Type, a, b) == Ordering::Equal) == (type_rank_spec(a.role, a.sub_role)
            == type_rank_spec(b.role, b.sub_role)),
        compare_spec(SortColumn::Unknown, a, b) == Ordering::Equal,
{
}

/// Every column orders a pair both ways consistently: `a` sorts before `b`
/// exactly when `b` sorts after `a`, and a tie is a tie either way round.
pub proof fn law_swapping_rows_reverses_the_order(col: SortColumn, a: OverviewRow, b: OverviewRow)
    ensures
        (compare_spec(col, a, b) == Ordering::Less) == (compare_spec(col, b, a) == Ordering::Greater),
        (compare_spec(col, a, b) == Ordering::Equal) == (compare_spec(col, b, a) == Ordering::Equal),
{
    lemma_seq_lt_asym(lowercase(a.title@), lowercase(b.title@));
    lemma_seq_lt_asym(lowercase(a.label@), lowercase(b.label@));
    lemma_seq_lt_total(lowercase(a.title@), lowercase(b.title@));
    lemma_seq_lt_total(lowercase(a.label@), lowercase(b.label@));
}

/// Each column id names its own column: the title id the title column, and
/// so on for every sortable column.
pub proof fn law_each_column_id_names_its_column()
    ensures
        column_of(COL_TITLE@) == SortColumn::Title,
        column_of(COL_LABEL@) == SortColumn::Label,
        column_of(COL_OWN_WORDS@) == SortColumn::OwnWords,
        column_of(COL_TOTAL_WORDS@) == SortColumn::TotalWords,
        column_of(COL_OPEN_COMMENTS@) == SortColumn::OpenComments,
        column_of(COL_TOTAL_COMMENTS@) == SortColumn::TotalComments,
        column_of(COL_TYPE@) == SortColumn::Type,
{
    reveal_strlit("title");
    reveal_strlit("label");
    reveal_strlit("own_words");
    reveal_strlit("total_words");
    reveal_strlit("open_comments");
    reveal_strlit("total_comments");
    reveal_strlit("type");
    assert(COL_TITLE@.len() == 5 && COL_LABEL@.len() == 5 && COL_OWN_WORDS@.len() == 9);
    assert(COL_TOTAL_WORDS@.len() == 11 && COL_OPEN_COMMENTS@.len() == 13 && COL_TOTAL_COMMENTS@.len() == 14);
    assert(COL_TYPE@.len() == 4);
    assert(COL_LABEL@[0] != COL_TITLE@[0]);
}

} // verus!
