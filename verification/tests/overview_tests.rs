use std::cmp::Ordering;
use teksilo_ui::overview::{
    container_state, fold_totals, resolve_drop, DropPosition, manuscript_words, open_comments_per_row, overview_row, rebased_depth, scene_text_per_row, subtree_of,
    touches_scope, type_rank, BinderItemRole, BinderItemSubRole, GoalUnit, ItemFacts, OverviewRow, Subtree, TreeRow, COL_OWN_WORDS, COL_TITLE,
    COL_TOTAL_WORDS, COL_TYPE,
};
use teksilo_ui::overview_sort::comparator;
use teksilo_ui::overview::BinderItemRole::{Folder, Item};
use teksilo_ui::overview::BinderItemSubRole::{Book, ChapterScene, Part, Scene};

fn r(uid: u64, own: Option<usize>, depth: usize) -> TreeRow {
    row_with(uid, own, depth, true)
}

fn row_with(uid: u64, own: Option<usize>, depth: usize, is_exportable: bool) -> TreeRow {
    TreeRow::new(
        uid as u128,
        OverviewRow {
            item_id: uid,
            uid: uid as u128,
            own_words: own,
            is_exportable,
            manuscript_words: manuscript_words(is_exportable, own),
            ..Default::default()
        },
        depth,
    )
}

#[test]
fn a_row_left_out_of_the_export_keeps_its_length_but_leaves_every_total() {
    let mut rows = vec![r(1, None, 0), r(2, Some(1_200), 1), row_with(3, Some(900), 1, false)];
    fold_totals(&mut rows);
    assert_eq!(rows[2].item.own_words, Some(900), "its own length is still the truth about it");
    assert_eq!(rows[0].item.total_words, 1_200, "the chapter counts only what reaches the book");
}

#[test]
fn excluding_a_container_does_not_exclude_what_is_inside_it() {
    let mut rows = vec![row_with(1, None, 0, false), r(2, Some(500), 1), r(3, Some(300), 1)];
    fold_totals(&mut rows);
    assert_eq!(rows[0].item.total_words, 800, "the scenes inside still reach the book");
}

#[test]
fn totals_fold_bottom_up_through_several_levels() {
    let mut rows = vec![r(1, None, 0), r(2, Some(10), 1), r(3, Some(100), 2), r(4, Some(200), 2), r(5, Some(50), 1)];
    fold_totals(&mut rows);
    let totals: Vec<usize> = rows.iter().map(|r| r.item.total_words).collect();
    assert_eq!(totals, vec![360, 310, 100, 200, 50], "part = 10+100+200+50, chapter = 10+100+200, leaves = their own");
}

#[test]
fn a_prose_less_container_still_totals_its_children() {
    let mut rows = vec![r(1, None, 0), r(2, Some(7), 1)];
    fold_totals(&mut rows);
    assert_eq!(rows[0].item.total_words, 7);
    assert_eq!(rows[0].item.own_words, None, "and reports no prose of its own");
}

#[test]
fn open_comments_fold_bottom_up_alongside_words() {
    let mut rows = vec![r(1, None, 0), r(2, Some(10), 1), r(3, Some(20), 2)];
    rows[0].item.own_comments = 1;
    rows[1].item.own_comments = 0;
    rows[2].item.own_comments = 4;
    fold_totals(&mut rows);
    assert_eq!(rows[0].item.total_comments, 5, "1 on the part + 4 below");
    assert_eq!(rows[1].item.total_comments, 4, "0 of its own + 4 below");
    assert_eq!(rows[2].item.total_comments, 4);
    assert_eq!(rows[0].item.total_words, 30);
}

#[test]
fn comment_siblings_do_not_leak_into_each_other() {
    let mut rows = vec![r(1, Some(1), 0), r(2, Some(1), 1), r(3, Some(1), 0)];
    rows[0].item.own_comments = 0;
    rows[1].item.own_comments = 7;
    rows[2].item.own_comments = 2;
    fold_totals(&mut rows);
    assert_eq!(rows[0].item.total_comments, 7);
    assert_eq!(rows[2].item.total_comments, 2, "the sibling keeps only its own");
}

#[test]
fn folding_an_empty_set_is_a_noop() {
    let mut rows: Vec<TreeRow> = Vec::new();
    fold_totals(&mut rows);
    assert!(rows.is_empty());
}

#[test]
fn siblings_do_not_leak_into_each_other() {
    let mut rows = vec![r(1, Some(1), 0), r(2, Some(2), 1), r(3, Some(4), 2), r(4, Some(8), 0)];
    fold_totals(&mut rows);
    assert_eq!(rows[0].item.total_words, 7, "1 + 2 + 4");
    assert_eq!(rows[3].item.total_words, 8, "the sibling keeps only its own");
}

fn flat() -> Vec<(u64, u64, i64)> {
    vec![(1, 100, 0), (1, 1, 1), (1, 2, 2), (1, 3, 3), (1, 4, 3), (1, 5, 2), (1, 6, 1)]
}

fn slice_ids(container: u64) -> Vec<u64> {
    match subtree_of(&flat(), container) {
        Subtree::Found { rows, .. } => rows.iter().map(|t| t.1).collect(),
        Subtree::ContainerGone => panic!("container {container} should be present"),
    }
}

#[test]
fn the_slice_is_the_container_subtree_without_the_container() {
    assert_eq!(slice_ids(1), vec![2, 3, 4, 5], "part 1's descendants only");
    assert_eq!(slice_ids(2), vec![3, 4], "the chapter folder's scenes");
    assert_eq!(slice_ids(100), vec![1, 2, 3, 4, 5, 6], "the book holds everything");
}

#[test]
fn the_slice_stops_at_the_first_sibling() {
    assert!(!slice_ids(1).contains(&6));
}

#[test]
fn a_childless_container_slices_to_nothing_but_is_still_present() {
    match subtree_of(&flat(), 6) {
        Subtree::Found { rows, .. } => assert!(rows.is_empty()),
        Subtree::ContainerGone => panic!("part 6 is in the stream"),
    }
}

#[test]
fn an_absent_container_is_reported_as_gone_not_empty() {
    assert!(matches!(subtree_of(&flat(), 999), Subtree::ContainerGone));
}

#[test]
fn the_slice_stops_at_a_binder_boundary() {
    let f = vec![(1, 10, 0), (1, 11, 1), (2, 20, 1), (2, 21, 2)];
    match subtree_of(&f, 10) {
        Subtree::Found { rows, .. } => {
            let ids: Vec<u64> = rows.iter().map(|t| t.1).collect();
            assert_eq!(ids, vec![11], "binder 2's items must not be adopted as the Part's children");
        }
        Subtree::ContainerGone => panic!("the Part is in the stream"),
    }
}

#[test]
fn the_slice_reports_the_base_indent_to_rebase_from() {
    let Subtree::Found { rows, base } = subtree_of(&flat(), 1) else {
        panic!("part 1 is present");
    };
    assert_eq!(base, 1, "part 1 sits at indent 1");
    let depths: Vec<i64> = rows.iter().map(|t| t.2 - base - 1).collect();
    assert_eq!(depths, vec![0, 1, 1, 0], "chapter, its 2 scenes, flat chapter");
    let drawn: Vec<usize> = rows.iter().map(|t| rebased_depth(t.2, base)).collect();
    assert_eq!(drawn, vec![0, 1, 1, 0]);
    assert_eq!(rebased_depth(0, 3), 0, "never below zero");
}

fn row_for(title: &str, label: &str, own: Option<usize>, total: usize) -> OverviewRow {
    OverviewRow { title: title.to_string(), label: label.to_string(), own_words: own, total_words: total, ..Default::default() }
}

#[test]
fn title_sorts_case_insensitively() {
    let cmp = comparator(COL_TITLE);
    assert_eq!(
        cmp.compare(&row_for("apple", "", None, 0), &row_for("Banana", "", None, 0)),
        Ordering::Less,
        "lowercase 'apple' must precede 'Banana' — a raw byte compare would not"
    );
}

#[test]
fn no_prose_sorts_below_zero_prose() {
    let cmp = comparator(COL_OWN_WORDS);
    assert_eq!(
        cmp.compare(&row_for("a", "", None, 0), &row_for("b", "", Some(0), 0)),
        Ordering::Less,
        "'nothing to count' is less than 'counted, and it was zero'"
    );
}

#[test]
fn totals_sort_numerically_not_lexically() {
    let cmp = comparator(COL_TOTAL_WORDS);
    assert_eq!(
        cmp.compare(&row_for("a", "", None, 9), &row_for("b", "", None, 100)),
        Ordering::Less,
        "9 < 100 — a string sort would put 100 first"
    );
}

#[test]
fn type_sorts_outermost_first() {
    let mk = |role: BinderItemRole, sub_role: BinderItemSubRole| OverviewRow { role, sub_role, ..Default::default() };
    let cmp = comparator(COL_TYPE);
    assert_eq!(cmp.compare(&mk(Folder, Book), &mk(Folder, Part)), Ordering::Less);
    assert_eq!(cmp.compare(&mk(Folder, Part), &mk(Folder, ChapterScene)), Ordering::Less);
    assert_eq!(
        cmp.compare(&mk(Folder, ChapterScene), &mk(Item, Scene)),
        Ordering::Less,
        "a chapter groups above the scenes inside it"
    );
    assert_eq!(cmp.compare(&mk(Item, Scene), &mk(Folder, Part)), Ordering::Greater);
    assert!(type_rank(Folder, Book) < type_rank(Item, Scene));
}

#[test]
fn an_unknown_sort_column_is_inert() {
    let cmp = comparator("no-such-column");
    assert_eq!(cmp.compare(&row_for("z", "", None, 0), &row_for("a", "", None, 0)), Ordering::Equal);
}

#[test]
fn a_row_left_out_contributes_nothing_and_a_row_without_prose_contributes_nothing() {
    assert_eq!(manuscript_words(true, Some(12)), 12);
    assert_eq!(manuscript_words(false, Some(12)), 0);
    assert_eq!(manuscript_words(true, None), 0);
}

#[test]
fn open_threads_are_counted_on_the_row_owning_their_content() {
    let contents = vec![vec![10u64, 11], vec![20], vec![]];
    let open = vec![11u64, 20, 20, 99, 10];
    assert_eq!(open_comments_per_row(&contents, &open), vec![2, 2, 0]);
}

#[test]
fn an_event_naming_nothing_touches_the_table() {
    assert!(touches_scope(&[1, 2], &[]));
    assert!(touches_scope(&[1, 2], &[5, 2]));
    assert!(!touches_scope(&[1, 2], &[5, 6]));
}

#[test]
fn a_table_with_no_project_a_gone_container_or_no_children_has_no_rows() {
    assert_eq!(container_state(false, &Subtree::ContainerGone), (true, false), "nothing loaded is not missing");
    assert_eq!(container_state(true, &subtree_of(&flat(), 999)), (false, false));
    assert_eq!(container_state(true, &subtree_of(&flat(), 6)).0, true);
    assert_eq!(container_state(true, &Subtree::Found { rows: vec![], base: 0 }), (true, false));
}

fn facts(counts_prose: bool, scene_words: Option<usize>, is_exportable: bool) -> ItemFacts {
    ItemFacts {
        item_id: 7,
        uid: 70,
        role: Item,
        sub_role: Scene,
        title: "Harbour".to_string(),
        label: String::new(),
        tags: vec![3],
        number: None,
        fallback_label: None,
        is_exportable,
        counts_prose,
        scene_words,
        word_count_goal: 1500,
        char_count_goal: 9000,
        indent: 3,
    }
}

#[test]
fn a_row_counts_its_own_prose_and_its_goal_in_the_projects_unit() {
    let r = overview_row(facts(true, Some(120), true), GoalUnit::Words, 2, 1);
    assert_eq!((r.key, r.depth), (70, 1));
    assert_eq!((r.item.own_words, r.item.manuscript_words, r.item.goal), (Some(120), 120, 1500));
    assert_eq!((r.item.own_comments, r.item.total_words, r.item.total_comments), (2, 0, 0));
    // A prose-bearing row whose scene text is not there yet reads as zero, not blank.
    assert_eq!(overview_row(facts(true, None, true), GoalUnit::Characters, 0, 1).item.own_words, Some(0));
    assert_eq!(overview_row(facts(true, None, true), GoalUnit::Characters, 0, 1).item.goal, 9000);
    // A folder carries no prose; an unexported row contributes nothing.
    assert_eq!(overview_row(facts(false, Some(50), true), GoalUnit::Words, 0, 1).item.own_words, None);
    assert_eq!(overview_row(facts(true, Some(50), false), GoalUnit::Words, 0, 1).item.manuscript_words, 0);
}

#[test]
fn a_drop_into_a_leaf_lands_after_it() {
    assert_eq!(resolve_drop(Item, DropPosition::Into), DropPosition::After);
    assert_eq!(resolve_drop(Folder, DropPosition::Into), DropPosition::Into);
    assert_eq!(resolve_drop(Item, DropPosition::Before), DropPosition::Before);
    assert_eq!(resolve_drop(Item, DropPosition::After), DropPosition::After);
}

#[test]
fn each_row_takes_the_first_scene_text_it_owns() {
    // Row 0 owns contents 10 (a synopsis) and 11 (scene text); row 1 owns 20
    // and 21, both scene texts; row 2 owns nothing that came back.
    let contents = vec![vec![10, 11], vec![20, 21], vec![30]];
    let fetched = vec![(21, true), (10, false), (11, true), (20, true), (99, true)];
    assert_eq!(scene_text_per_row(&contents, &fetched), vec![Some(2), Some(0), None]);
    // A content listed by two rows belongs to the later one.
    let shared = vec![vec![5], vec![5]];
    assert_eq!(scene_text_per_row(&shared, &[(5, true)]), vec![None, Some(0)]);
}
