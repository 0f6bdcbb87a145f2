use teksilo_ui::binder_stream::{refs_in_order, BinderItemRef};
use teksilo_ui::comments::{
    is_orphaned, orphans, replies_in_order, rows_for_content, rows_for_item, sort_rows, structure_changed,
    CommentRow, ReplyRow,
};
use teksilo_ui::dict_words::{contains, present_ids, sort_rows as sort_words, DictWordRow};
use teksilo_ui::digest::digest_of;
use teksilo_ui::indent_tree::{ancestors, child_rows, has_children, parent_of, subtree, visible_rows, PlanRowKey};
use teksilo_ui::media::{media_root, media_root_string};
use teksilo_ui::note_prose::{books_in_stream, declared_rows_in_book, resolve_book_choice, BookChoice, Declaration, StreamItem};
use teksilo_ui::presence::{confirm_targets, grouped, pending_references};
use teksilo_ui::reload::ReloadCoalescer;

// ── comments ─────────────────────────────────────────────────────────────────

fn row(id: u64, item: Option<u64>, block: u64, start: u64, orphaned: bool) -> CommentRow {
    CommentRow {
        id,
        item_id: item,
        content_id: if orphaned { None } else { Some(1) },
        block_ordinal_hint: block,
        range_start: start,
        range_length: if orphaned { 0 } else { 4 },
        orphaned,
        ..Default::default()
    }
}

#[test]
fn rows_sort_by_document_position_within_an_item() {
    let mut rows = vec![row(1, Some(10), 5, 100, false), row(2, Some(10), 1, 900, false), row(3, Some(10), 1, 20, false)];
    sort_rows(&mut rows);
    assert_eq!(
        rows.iter().map(|r| r.id).collect::<Vec<_>>(),
        vec![3, 2, 1],
        "earlier block first, then earlier offset within the block"
    );
}

#[test]
fn orphans_sort_last_rather_than_pretending_to_be_at_offset_zero() {
    let mut rows = vec![row(1, None, 0, 0, true), row(2, Some(10), 9, 900, false)];
    sort_rows(&mut rows);
    assert_eq!(
        rows.iter().map(|r| r.id).collect::<Vec<_>>(),
        vec![2, 1],
        "an anchorless comment has no position and must not lead the list"
    );
}

#[test]
fn creation_time_then_id_break_ties() {
    let mut a = row(5, Some(10), 1, 20, false);
    a.created_at = (100, 2);
    let mut b = row(4, Some(10), 1, 20, false);
    b.created_at = (100, 1);
    let mut c = row(3, Some(10), 1, 20, false);
    c.created_at = (100, 2);
    let mut rows = vec![a, b, c];
    sort_rows(&mut rows);
    assert_eq!(rows.iter().map(|r| r.id).collect::<Vec<_>>(), vec![4, 3, 5]);
}

#[test]
fn an_orphan_is_never_reported_as_anchored() {
    let o = row(1, None, 0, 0, true);
    assert!(!o.is_anchored());
    assert!(row(2, Some(3), 0, 0, false).is_anchored());
}

#[test]
fn a_resolved_but_empty_anchor_is_unplaced_not_anchored() {
    let r = CommentRow { content_id: Some(7), orphaned: false, range_start: 0, range_length: 0, ..Default::default() };
    assert!(r.is_unplaced(), "a live Content with an empty range is exactly what is_unplaced means");
    assert!(!r.is_anchored(), "an empty range must never be treated as a live position");
}

#[test]
fn an_orphan_is_never_reported_as_unplaced_either() {
    let o = row(1, None, 0, 0, true);
    assert!(!o.is_unplaced());
}

#[test]
fn an_ordinary_anchored_comment_is_not_unplaced() {
    assert!(!row(2, Some(3), 0, 0, false).is_unplaced());
}

#[test]
fn open_is_the_inverse_of_resolved() {
    let mut r = row(1, Some(3), 0, 0, false);
    assert!(r.is_open());
    r.resolved = true;
    assert!(!r.is_open());
}

fn reply(id: u64, body: &str) -> ReplyRow {
    ReplyRow { id, author_name: "Ed".to_string(), body: body.to_string(), created_at: (id as i64, 0) }
}

#[test]
fn a_thread_is_read_in_its_own_reply_order() {
    let fetched = vec![reply(9, "nine"), reply(3, "three"), reply(5, "five")];
    let replies = replies_in_order(&[5, 7, 9, 3], &fetched);
    assert_eq!(replies.iter().map(|r| r.id).collect::<Vec<_>>(), vec![5, 9, 3]);
    let mut r = row(1, Some(3), 0, 0, false);
    r.replies = replies;
    assert_eq!(r.reply_count(), 3);
    assert_eq!(r.latest_reply().map(|x| x.body.as_str()), Some("three"));
    assert!(row(2, None, 0, 0, true).latest_reply().is_none());
}

#[test]
fn the_docks_narrow_the_list_by_item_content_and_orphan_state() {
    let mut rows = vec![row(1, Some(10), 0, 0, false), row(2, None, 0, 0, true), row(3, Some(11), 0, 0, false)];
    rows[2].content_id = Some(2);
    assert_eq!(rows_for_item(&rows, 10), vec![0]);
    assert_eq!(rows_for_content(&rows, 2), vec![2]);
    assert_eq!(orphans(&rows), vec![1]);
    assert!(is_orphaned(false, None));
    assert!(is_orphaned(true, Some(4)));
    assert!(!is_orphaned(false, Some(4)));
}

// ── the personal dictionary ──────────────────────────────────────────────────

fn word(id: u64, w: &str) -> DictWordRow {
    DictWordRow { id, word: w.to_string() }
}

#[test]
fn words_list_case_insensitively_with_the_exact_word_as_tie_break() {
    let mut rows = vec![word(1, "the"), word(2, "Zebra"), word(3, "The"), word(4, "apple")];
    sort_words(&mut rows);
    assert_eq!(rows.iter().map(|r| r.word.as_str()).collect::<Vec<_>>(), vec!["apple", "The", "the", "Zebra"]);
    assert!(contains(&rows, "The"));
    assert!(!contains(&rows, "THE"), "matching is exact-case");
    assert_eq!(present_ids(&rows, &[4, 99, 1]), vec![4, 1]);
}

// ── the manuscript digest ────────────────────────────────────────────────────

fn roles(pairs: &[(&str, &str)]) -> Vec<(String, String)> {
    pairs.iter().map(|(a, b)| (a.to_string(), b.to_string())).collect()
}

#[test]
fn a_row_with_no_prose_digests_to_nothing_rather_than_to_a_hash() {
    assert!(digest_of(&[]).is_empty());
    assert!(digest_of(&roles(&[("scene", "")])).is_empty());
}

#[test]
fn the_order_the_roles_arrive_in_does_not_change_the_digest() {
    let a = digest_of(&roles(&[("scene", "the lamp"), ("synopsis", "a room")]));
    let b = digest_of(&roles(&[("synopsis", "a room"), ("scene", "the lamp")]));
    assert_eq!(a, b, "two sides that sort differently must still agree");
    assert_eq!(a.len(), 64, "a row with prose digests to a full hash");
    assert!(a.chars().all(|c| c.is_ascii_digit() || ('a'..='f').contains(&c)));
}

#[test]
fn moving_text_between_two_roles_is_not_reported_as_unchanged() {
    let before = digest_of(&roles(&[("scene", "the lamp went out"), ("synopsis", "")]));
    let after = digest_of(&roles(&[("scene", ""), ("synopsis", "the lamp went out")]));
    assert_ne!(before, after, "the same words in a different field is a change, not a coincidence");
}

#[test]
fn the_same_text_digests_the_same_way_twice() {
    let roles = roles(&[("scene", "She waited by the harbour.")]);
    assert_eq!(digest_of(&roles), digest_of(&roles));
}

#[test]
fn the_digest_is_blake3_of_slug_nul_text_nul() {
    let mut h = blake3::Hasher::new();
    h.update(b"scene\0a\0synopsis\0b\0");
    let want = h.finalize().to_hex().to_string();
    assert_eq!(digest_of(&roles(&[("synopsis", "b"), ("scene", "a")])), want);
}

// ── a note's declared rows ───────────────────────────────────────────────────

#[test]
fn a_row_naming_nobody_declares_nothing() {
    assert_eq!(Declaration::of(&[], &[], 7), None);
}

#[test]
fn a_row_in_the_cast_only_declares_cast() {
    assert_eq!(Declaration::of(&[], &[7], 7), Some(Declaration::Cast));
}

#[test]
fn a_row_told_from_the_notes_view_only_declares_point_of_view() {
    assert_eq!(Declaration::of(&[7], &[], 7), Some(Declaration::PointOfView));
}

#[test]
fn a_row_both_telling_from_and_naming_the_note_declares_both() {
    assert_eq!(Declaration::of(&[7], &[7], 7), Some(Declaration::Both));
}

#[test]
fn a_declaration_for_a_different_note_is_not_this_notes_declaration() {
    assert_eq!(Declaration::of(&[9], &[9], 7), None);
}

fn book(item_id: u64, uid: u128) -> BookChoice {
    BookChoice { item_id, uid, title: String::new(), number: None, fallback_label: None }
}

#[test]
fn a_resolving_uid_wins_even_when_it_is_not_first() {
    let books = vec![book(1, 10), book(2, 20), book(3, 30)];
    assert_eq!(resolve_book_choice(&books, Some(20)), Some(2));
}

#[test]
fn a_stale_uid_falls_back_to_the_first_book() {
    let books = vec![book(1, 10), book(2, 20)];
    assert_eq!(resolve_book_choice(&books, Some(999)), Some(1));
}

#[test]
fn no_stored_choice_falls_back_to_the_first_book() {
    let books = vec![book(1, 10), book(2, 20)];
    assert_eq!(resolve_book_choice(&books, None), Some(1));
}

#[test]
fn an_empty_book_list_resolves_to_nothing() {
    assert_eq!(resolve_book_choice(&[], None), None);
}

fn item(item_id: u64, is_book: bool, counts_prose: bool, pov: &[u64], cast: &[u64]) -> StreamItem {
    StreamItem { item_id, is_book, counts_prose, point_of_view: pov.to_vec(), references: cast.to_vec() }
}

/// A Note before any Book, then two Books each with a chapter and scenes.
fn stream() -> Vec<StreamItem> {
    vec![
        item(50, false, false, &[], &[7]),  // a Note filed before any Book
        item(1, true, false, &[], &[]),     // Book One
        item(2, false, true, &[], &[7]),    // its chapter folder's own prose, cast
        item(3, false, true, &[7], &[]),    // a scene told from her view
        item(4, false, true, &[7], &[7]),   // both
        item(5, false, false, &[7], &[7]),  // declared but carrying no prose
        item(6, false, true, &[], &[]),     // undeclared prose
        item(10, true, false, &[], &[]),    // Book Two
        item(11, false, true, &[7], &[]),   // declared, but in the other Book
    ]
}

#[test]
fn declared_rows_land_in_manuscript_order_with_the_right_declaration() {
    let rows = declared_rows_in_book(&stream(), 7, 1);
    assert_eq!(
        rows,
        vec![(2, Declaration::Cast), (3, Declaration::PointOfView), (4, Declaration::Both)],
        "undeclared, non-prose and other-Book rows must all be absent"
    );
}

#[test]
fn books_in_work_lists_both_books_in_manuscript_order() {
    let items = stream();
    let books: Vec<u64> = books_in_stream(&items).iter().map(|&k| items[k].item_id).collect();
    assert_eq!(books, vec![1, 10]);
}

#[test]
fn an_undeclared_prose_row_never_appears() {
    let items = stream();
    let rows = declared_rows_in_book(&items, 7, 1);
    assert!(!rows.iter().any(|(k, _)| items[*k].item_id == 6));
}

#[test]
fn a_declared_but_non_prose_row_is_excluded() {
    let items = stream();
    let rows = declared_rows_in_book(&items, 7, 1);
    assert!(!rows.iter().any(|(k, _)| items[*k].item_id == 5));
}

#[test]
fn a_row_declared_in_a_different_book_never_leaks_across_the_scope() {
    assert_eq!(declared_rows_in_book(&stream(), 7, 10), vec![(8, Declaration::PointOfView)]);
    assert!(declared_rows_in_book(&stream(), 7, 99).is_empty());
}

#[test]
fn a_note_declared_nowhere_reads_as_an_empty_stream() {
    assert!(declared_rows_in_book(&stream(), 8, 1).is_empty());
}

// ── a tree read off indents ──────────────────────────────────────────────────

/// Book / Chapter One (Scene A, Scene B) / Chapter Two
fn plan() -> Vec<i64> {
    vec![0, 1, 2, 2, 1]
}

fn keys(rows: &[usize]) -> Vec<PlanRowKey> {
    rows.iter().map(|r| PlanRowKey(*r as u32)).collect()
}

#[test]
fn the_flat_plan_becomes_a_tree_through_its_indents() {
    let ind = plan();
    assert_eq!(visible_rows(&ind, &[false; 5]).len(), 5);
    assert_eq!(parent_of(&ind, 2), Some(1));
    assert_eq!(parent_of(&ind, 1), Some(0));
    assert_eq!(parent_of(&ind, 0), None);
    assert_eq!(keys(&child_rows(&ind, 1)), vec![PlanRowKey(2), PlanRowKey(3)]);
    assert_eq!(keys(&child_rows(&ind, 0)), vec![PlanRowKey(1), PlanRowKey(4)], "grandchildren are not children");
}

#[test]
fn collapsing_a_row_hides_its_whole_subtree() {
    let ind = plan();
    let mut collapsed = [false; 5];
    collapsed[1] = true;
    assert_eq!(visible_rows(&ind, &collapsed), vec![0, 1, 4], "the two scenes under Chapter One are hidden");
    collapsed[1] = false;
    assert_eq!(visible_rows(&ind, &collapsed).len(), 5);
}

#[test]
fn collapsing_the_root_hides_everything_below_it() {
    let mut collapsed = [false; 5];
    collapsed[0] = true;
    assert_eq!(visible_rows(&plan(), &collapsed), vec![0]);
}

#[test]
fn a_subtree_is_the_row_and_everything_deeper_after_it() {
    let ind = plan();
    assert_eq!(keys(&subtree(&ind, 1)), vec![PlanRowKey(1), PlanRowKey(2), PlanRowKey(3)]);
    assert_eq!(keys(&subtree(&ind, 3)), vec![PlanRowKey(3)]);
    assert_eq!(subtree(&ind, 0).len(), 5);
}

#[test]
fn an_empty_source_is_a_valid_tree_with_nothing_in_it() {
    assert!(visible_rows(&[], &[]).is_empty());
}

#[test]
fn ancestors_come_nearest_first() {
    let ind = plan();
    assert_eq!(ancestors(&ind, 3), vec![1, 0]);
    assert!(ancestors(&ind, 0).is_empty());
    assert!(has_children(&ind, 1));
    assert!(!has_children(&ind, 2));
    assert!(!has_children(&ind, 4));
}

/// Book / Chapter One (Scene A) / Chapter Two
#[test]
fn collapsing_a_chapter_hides_its_scenes_and_nothing_else() {
    let ind = vec![0, 1, 2, 1];
    let visible = visible_rows(&ind, &[false, true, false, false]);
    assert_eq!(visible.len(), 3, "only Scene A is hidden");
    assert_eq!(visible[2], 3, "Chapter Two follows the collapsed chapter");
}

#[test]
fn every_row_is_visible_until_something_is_collapsed() {
    assert_eq!(visible_rows(&[0, 1, 2, 1], &[false; 4]).len(), 4);
}

#[test]
fn parent_and_children_are_derived_from_indent() {
    let ind = vec![0, 1, 2, 1];
    assert_eq!(parent_of(&ind, 1), Some(0));
    assert_eq!(child_rows(&ind, 1), vec![2]);
    assert!(child_rows(&ind, 2).is_empty());
}

// ── confirming a presence ────────────────────────────────────────────────────

#[test]
fn an_entry_is_never_confirmed_into_its_own_cast() {
    assert_eq!(confirm_targets(&[4, 7, 4, 5, 7], 7), vec![4, 5]);
}

#[test]
fn confirming_appends_rather_than_replacing_a_cast() {
    let writes = pending_references(&[4, 5], &[vec![1, 2], vec![7]], 7);
    assert_eq!(writes, vec![(4, vec![1, 2, 7])], "document 5 already lists the entry and is left alone");
    assert!(!grouped(writes.len()));
    assert!(grouped(2));
}

#[test]
fn confirming_what_is_already_confirmed_writes_nothing() {
    let first = pending_references(&[4, 5], &[vec![], vec![3]], 9);
    let after: Vec<Vec<u64>> = first.iter().map(|(_, refs)| refs.clone()).collect();
    assert!(pending_references(&[4, 5], &after, 9).is_empty());
}

// ── one reload per burst ─────────────────────────────────────────────────────

#[test]
fn a_burst_of_events_owes_exactly_one_reload() {
    let mut c = ReloadCoalescer::new();
    for _ in 0..200 {
        c.mark();
    }
    assert!(c.take(), "the frame owes a reload");
    assert!(!c.take(), "and only one — a second frame must not reload again");
}

#[test]
fn a_frame_with_nothing_pending_does_not_reload() {
    assert!(!ReloadCoalescer::new().take());
}

#[test]
fn an_event_after_a_reload_owes_another() {
    let mut c = ReloadCoalescer::new();
    c.mark();
    assert!(c.take());
    c.mark();
    assert!(c.take(), "the second burst is not swallowed");
}

// ── the binder stream and media root ─────────────────────────────────────────

#[test]
fn the_stream_keeps_relationship_order_and_every_position() {
    let fetched = vec![
        BinderItemRef { id: 3, uid: 30, title: "Three".into() },
        BinderItemRef { id: 1, uid: 10, title: "One".into() },
    ];
    let out = refs_in_order(&[1, 2, 3], &fetched);
    assert_eq!(out.iter().map(|r| (r.id, r.uid, r.title.as_str())).collect::<Vec<_>>(), vec![
        (1, 10, "One"),
        (2, 0, ""),
        (3, 30, "Three")
    ]);
}

#[test]
fn the_media_root_is_the_data_directory_media_folder() {
    assert_eq!(media_root(None), "");
    let root = media_root(Some("/home/w/.local/share/skribisto"));
    assert!(root.starts_with("/home/w/.local/share/skribisto"));
    assert!(root.ends_with("media"));
    assert_eq!(root, "/home/w/.local/share/skribisto/media");
    assert_eq!(media_root_string(Some("/data")), "/data/media");
}

#[test]
fn a_card_rebuilds_when_what_it_draws_changes_and_not_otherwise() {
    let before = vec![row(1, Some(10), 0, 5, false), row(2, Some(10), 0, 9, false)];
    // A body edit is not something the card's structure draws.
    let mut edited = vec![row(1, Some(10), 0, 5, false), row(2, Some(10), 0, 9, false)];
    edited[0].body = "changed".to_string();
    assert!(!structure_changed(&before, &edited));
    // Resolving a thread is.
    let mut resolved = vec![row(1, Some(10), 0, 5, false), row(2, Some(10), 0, 9, false)];
    resolved[1].resolved = true;
    assert!(structure_changed(&before, &resolved));
    // One reply swapped for another keeps the count and still changes the card.
    let mut a = vec![row(1, Some(10), 0, 5, false)];
    a[0].replies = vec![reply(100, "x")];
    let mut b = vec![row(1, Some(10), 0, 5, false)];
    b[0].replies = vec![reply(101, "x")];
    assert!(structure_changed(&a, &b));
    // A thread gone is a change.
    assert!(structure_changed(&before, &before[..1]));
}

#[test]
fn a_default_reply_is_empty_and_made_at_the_epoch() {
    let r = ReplyRow::default();
    assert_eq!((r.id, r.author_name.as_str(), r.body.as_str(), r.created_at), (0, "", "", (0, 0)));
    let c = CommentRow::default();
    assert!(c.replies.is_empty() && c.content_id.is_none() && !c.orphaned);
}

#[test]
fn roles_sharing_a_slug_digest_the_same_in_either_order() {
    let a = digest_of(&[
        ("scene".to_string(), "first".to_string()),
        ("scene".to_string(), "second".to_string()),
    ]);
    let b = digest_of(&[
        ("scene".to_string(), "second".to_string()),
        ("scene".to_string(), "first".to_string()),
    ]);
    assert_eq!(a, b);
    assert_eq!(digest_of(&[]), "");
}

#[test]
fn a_key_outside_the_plan_has_no_relatives() {
    let ind = vec![0, 1, 2, 1];
    assert_eq!(parent_of(&ind, 9), None);
    assert!(child_rows(&ind, 9).is_empty());
    assert!(subtree(&ind, 4).is_empty());
    assert!(ancestors(&ind, 4).is_empty());
    assert!(!has_children(&ind, 9));
    assert!(!has_children(&ind, usize::MAX));
}
