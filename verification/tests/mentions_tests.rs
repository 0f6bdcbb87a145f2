use teksilo_ui::mention_index::{
    accepts_scan, rescan_due, take_if_ours, DiscoverableEntity, LiveHit, LiveScan, MentionIndex, RESCAN_THROTTLE_MS,
};
use teksilo_ui::mentions::{sorted, MentionRow};

fn row(target: u64, title: &str, confirmed: bool, title_match: bool, hits: i64) -> MentionRow {
    MentionRow {
        owner_id: 1,
        target_id: target,
        title: title.to_string(),
        matched_names: vec![title.to_string()],
        is_title_match: title_match,
        hit_count: hits,
        is_confirmed: confirmed,
        is_point_of_view: false,
        evidence: String::new(),
    }
}

#[test]
fn confirmed_rows_sort_above_suggestions() {
    let out = sorted(vec![row(2, "Suggested", false, true, 99), row(3, "Pinned", true, false, 1)]);
    assert_eq!(out[0].title, "Pinned");
}

#[test]
fn a_title_match_outranks_an_alias_and_then_frequency_decides() {
    let out = sorted(vec![
        row(2, "AliasOften", false, false, 9),
        row(3, "TitleOnce", false, true, 1),
        row(4, "AliasOnce", false, false, 1),
    ]);
    let order: Vec<&str> = out.iter().map(|r| r.title.as_str()).collect();
    assert_eq!(order, vec!["TitleOnce", "AliasOften", "AliasOnce"]);
}

#[test]
fn equal_rows_keep_a_stable_order() {
    let a = sorted(vec![row(2, "Bea", false, true, 1), row(3, "Ada", false, true, 1)]);
    let b = sorted(vec![row(3, "Ada", false, true, 1), row(2, "Bea", false, true, 1)]);
    assert_eq!(a, b);
}

fn seeded_index(table: Vec<DiscoverableEntity>, rows: Vec<MentionRow>) -> MentionIndex {
    let mut index = MentionIndex::new();
    index.load_scan(rows, Some(table));
    index
}

fn entity(id: u64, title: &str) -> DiscoverableEntity {
    DiscoverableEntity { id, title: title.to_string(), aliases: vec![] }
}

fn suggestion(owner: u64, target: u64, title: &str, hits: i64, confirmed: bool) -> MentionRow {
    pov_suggestion(owner, target, title, hits, confirmed, false)
}

fn pov_suggestion(owner: u64, target: u64, title: &str, hits: i64, confirmed: bool, point_of_view: bool) -> MentionRow {
    MentionRow {
        owner_id: owner,
        target_id: target,
        title: title.to_string(),
        matched_names: vec![title.to_string()],
        is_title_match: true,
        hit_count: hits,
        is_confirmed: confirmed,
        is_point_of_view: point_of_view,
        evidence: if hits > 0 { format!("{title} walked in.") } else { String::new() },
    }
}

/// What the app's matcher finds in one sentence that names `title` once.
fn hit(entity_id: u64, title: &str, sentence: &str) -> LiveHit {
    LiveHit { entity_id, matched_name: title.to_string(), is_title_match: true, evidence: sentence.to_string() }
}

/// A live scan of `prose` that found `hits`.
fn scan(prose: &str, hits: Vec<LiveHit>) -> LiveScan {
    LiveScan { prose_empty: prose.is_empty(), hits }
}

#[test]
fn cast_for_shows_confirmed_pins_without_prose_hits() {
    let index = seeded_index(vec![entity(10, "Elena"), entity(11, "Dock")], vec![]);
    let cast = index.cast_for(1, None, &[10], &[], &[]);
    assert_eq!(cast.len(), 1);
    assert!(cast[0].is_confirmed);
    assert_eq!(cast[0].target_id, 10);
    assert_eq!(cast[0].hit_count, 0);
}

/// Empty live prose is no live overlay at all, so the owner's batch stays.
#[test]
fn cast_for_empty_live_prose_keeps_owner_batch() {
    let index = seeded_index(vec![entity(10, "Grace")], vec![suggestion(1, 10, "Grace", 2, false)]);
    // The empty prose names nobody: its scan finds no hits.
    let cast = index.cast_for(1, Some(&scan("", vec![])), &[], &[], &[]);
    assert_eq!(cast.len(), 1, "batch suggestion must survive empty live prose");
    assert_eq!(cast[0].target_id, 10);
    assert_eq!(cast[0].hit_count, 2);
    assert!(!cast[0].is_confirmed);
}

#[test]
fn cast_for_chapter_union_ignores_child_pins() {
    let index = seeded_index(vec![entity(10, "Grace")], vec![suggestion(2, 10, "Grace", 3, true)]);
    let cast = index.cast_for(1, None, &[], &[], &[2]);
    assert_eq!(cast.len(), 1);
    assert!(!cast[0].is_confirmed, "chapter cast must not inherit a child's pin");
    assert_eq!(cast[0].hit_count, 3);
}

#[test]
fn cast_for_chapter_pin_is_independent_of_children() {
    let index = seeded_index(vec![entity(10, "Grace"), entity(11, "Will")], vec![suggestion(2, 10, "Grace", 1, false)]);
    let cast = index.cast_for(1, None, &[11], &[], &[2]);
    assert_eq!(cast.len(), 2);
    assert!(cast[0].is_confirmed && cast[0].target_id == 11);
    assert!(!cast[1].is_confirmed && cast[1].target_id == 10);
}

#[test]
fn filter_cast_targets_drops_self_and_unknown() {
    let index = seeded_index(vec![entity(10, "Elena"), entity(11, "Dock")], vec![]);
    assert_eq!(index.filter_cast_targets(1, &[10, 1, 10, 99, 11]), vec![10, 11]);
    assert!(index.is_valid_cast_target(10));
    assert!(!index.is_valid_cast_target(99));
}

#[test]
fn cast_for_shows_a_point_of_view_with_no_prose_hits() {
    let index = seeded_index(vec![entity(10, "Grace")], vec![]);
    let cast = index.cast_for(1, None, &[], &[10], &[]);
    assert_eq!(cast.len(), 1);
    assert!(cast[0].is_point_of_view);
    assert!(!cast[0].is_confirmed, "a point of view is not a reference pin");
    assert_eq!(cast[0].hit_count, 0);
}

#[test]
fn cast_for_does_not_show_a_batch_only_point_of_view_the_live_argument_no_longer_lists() {
    let index = seeded_index(vec![entity(10, "Grace")], vec![pov_suggestion(1, 10, "Grace", 0, false, true)]);
    let cast = index.cast_for(1, None, &[], &[], &[]);
    assert!(
        cast.iter().all(|row| !row.is_point_of_view),
        "a stale batch record alone must not keep is_point_of_view true once the caller's own live argument no longer carries it"
    );
}

#[test]
fn cast_for_shows_a_freshly_declared_point_of_view_with_no_batch_entry_yet() {
    let index = seeded_index(vec![entity(10, "Grace")], vec![]);
    let cast = index.cast_for(1, None, &[], &[10], &[]);
    assert_eq!(cast.len(), 1, "the live argument alone must be enough, with no scan having run at all");
    assert!(cast[0].is_point_of_view);
    assert!(!cast[0].is_confirmed);
    assert_eq!(cast[0].hit_count, 0);
}

/// "The rain kept falling." names nobody, so the live scan finds nothing.
#[test]
fn cast_for_keeps_the_owners_point_of_view_even_when_live_prose_replaces_its_batch_half() {
    let index = seeded_index(vec![entity(10, "Grace")], vec![]);
    let cast = index.cast_for(1, Some(&scan("The rain kept falling.", vec![])), &[], &[10], &[]);
    assert_eq!(cast.len(), 1, "the point-of-view row must survive the live pass");
    assert!(cast[0].is_point_of_view);
    assert_eq!(cast[0].hit_count, 0);
}

#[test]
fn cast_for_chapter_union_ignores_a_child_scenes_own_point_of_view() {
    let index = seeded_index(vec![entity(10, "Grace")], vec![pov_suggestion(2, 10, "Grace", 3, false, true)]);
    let cast = index.cast_for(1, None, &[], &[], &[2]);
    assert_eq!(cast.len(), 1);
    assert!(!cast[0].is_point_of_view, "chapter cast must not inherit a child's own point of view");
    assert_eq!(cast[0].hit_count, 3, "the child's text hits still surface");
}

#[test]
fn cast_for_can_show_a_row_that_is_both_pinned_and_point_of_view() {
    let index = seeded_index(vec![entity(10, "Grace")], vec![]);
    let cast = index.cast_for(1, None, &[10], &[10], &[]);
    assert_eq!(cast.len(), 1);
    assert!(cast[0].is_confirmed);
    assert!(cast[0].is_point_of_view);
}

#[test]
fn roster_for_keeps_a_point_of_view_row_the_live_pass_finds_no_text_for() {
    let index = seeded_index(vec![entity(10, "Grace")], vec![pov_suggestion(1, 10, "Grace", 0, false, true)]);
    let none: Vec<LiveHit> = Vec::new();
    let roster = index.roster_for(1, Some(&none));
    assert_eq!(roster.len(), 1, "the point-of-view row must survive the live pass");
    assert!(roster[0].is_point_of_view);
    assert!(!roster[0].is_confirmed);
}

#[test]
fn roster_for_restores_the_point_of_view_flag_on_a_row_the_live_pass_also_matched() {
    let index = seeded_index(vec![entity(10, "Grace")], vec![pov_suggestion(1, 10, "Grace", 1, false, true)]);
    let hits = vec![hit(10, "Grace", "Grace opened the door.")];
    let roster = index.roster_for(1, Some(&hits));
    assert_eq!(roster.len(), 1);
    assert!(roster[0].is_point_of_view, "a live text hit must not silently clear the point-of-view flag the batch carried");
    assert_eq!(roster[0].hit_count, 1);
    assert_eq!(roster[0].evidence, "Grace opened the door.");
}

#[test]
fn backlinks_list_every_document_naming_the_item() {
    let index = seeded_index(
        vec![entity(10, "Grace")],
        vec![suggestion(1, 10, "Grace", 1, false), suggestion(2, 10, "Grace", 5, true), suggestion(3, 11, "Will", 2, false)],
    );
    let back = index.backlinks_for(10);
    let owners: Vec<u64> = back.iter().map(|r| r.owner_id).collect();
    assert_eq!(owners, vec![2, 1], "the confirmed one first");
}

#[test]
fn a_scan_lands_only_on_the_project_it_was_fired_for() {
    assert!(accepts_scan(Some(4), Some(4)));
    assert!(!accepts_scan(Some(4), Some(5)));
    assert!(!accepts_scan(None, Some(4)));
    assert!(!accepts_scan(Some(4), None));
}

#[test]
fn the_matched_names_read_as_one_label() {
    let mut r = row(10, "Elizabeth", false, true, 1);
    assert_eq!(r.matched_label(), "Elizabeth");
    r.matched_names.push("Lizzy".to_string());
    assert_eq!(r.matched_label(), "Elizabeth, Lizzy");
}

#[test]
fn only_the_scan_in_flight_is_taken_and_only_once() {
    let mut active = Some("op-7".to_string());
    assert_eq!(take_if_ours(&mut active, Some("op-3")), None);
    assert_eq!(active, Some("op-7".to_string()));
    assert_eq!(take_if_ours(&mut active, None), None);
    assert_eq!(take_if_ours(&mut active, Some("op-7")), Some("op-7".to_string()));
    assert_eq!(active, None);
    assert_eq!(take_if_ours(&mut active, Some("op-7")), None);
}

#[test]
fn rows_that_compare_equal_keep_the_order_they_came_in() {
    // Same confirmation, title match, frequency and title: only the target differs.
    let out = sorted(vec![row(7, "Ada", false, false, 2), row(4, "Ada", false, false, 2), row(9, "Bo", true, false, 0)]);
    let targets: Vec<u64> = out.iter().map(|r| r.target_id).collect();
    assert_eq!(targets, vec![9, 7, 4]);
    let out = sorted(vec![row(4, "Ada", false, false, 2), row(7, "Ada", false, false, 2)]);
    let targets: Vec<u64> = out.iter().map(|r| r.target_id).collect();
    assert_eq!(targets, vec![4, 7]);
}

#[test]
fn a_save_rescans_at_most_once_a_minute_and_never_over_a_running_scan() {
    assert_eq!(RESCAN_THROTTLE_MS, 60_000);
    assert!(rescan_due(false, true, None), "the first save scans");
    assert!(!rescan_due(false, true, Some(59_999)));
    assert!(rescan_due(false, true, Some(60_000)));
    assert!(rescan_due(false, false, Some(10)), "an explicit rescan is not throttled");
    assert!(!rescan_due(true, false, None), "nothing fires over a running scan");
    assert!(!rescan_due(true, true, Some(120_000)));
}
