use teksilo_ui::lane_ids::{group_of, mark_id, key_of};
use teksilo_ui::lanes::{
    clear_active_query_from, clear_subject_for, comment_anchors, own_spans, paint_order, scan_table, set_active_query,
    spelling_marks, story_bible_marks, word_at, LaneQuery, LaneQuerySource, LaneSubject,
};
use teksilo_ui::mention_index::DiscoverableEntity;

#[test]
fn a_providers_group_is_the_same_number_every_time() {
    assert_eq!(group_of("comments"), group_of("comments"));
    assert_eq!(group_of("search"), 0xa89a);
    assert_eq!(group_of("comments"), 0x8a51);
    assert_eq!(group_of("boundaries"), 0x4782);
    assert_eq!(group_of("spelling"), 0x4281);
}

#[test]
fn the_same_ordinal_in_two_rows_is_two_different_marks() {
    assert_ne!(mark_id(101, 0), mark_id(202, 0));
    assert_ne!(mark_id(101, 0), mark_id(101, 1));
    assert_eq!(mark_id(101, 3), mark_id(101, 3), "and stable across repaints");
}

#[test]
fn a_mark_id_is_the_same_number_on_every_build() {
    assert_eq!(mark_id(101, 0), 0xdcec_6bd3_6438_f340);
    assert_eq!(mark_id(202, 0), 0xdc9d_4f98_6fa4_87af);
    assert_eq!(mark_id(101, 1), 0xfbe7_32dc_6f28_3d61);
}

#[test]
fn a_stack_key_depends_on_every_frame_and_their_order() {
    let a = key_of(&[1, 2, 3]);
    assert_eq!(a, key_of(&[1, 2, 3]));
    assert_ne!(a, key_of(&[3, 2, 1]));
    assert_ne!(a, key_of(&[1, 2]));
}

fn query(text: &str, case_sensitive: bool, source: LaneQuerySource, current: Option<usize>) -> LaneQuery {
    LaneQuery {
        text: text.to_string(),
        case_sensitive,
        whole_word: false,
        diacritic_sensitive: false,
        source,
        current,
    }
}

#[test]
fn the_last_source_to_publish_is_the_one_the_lane_shows() {
    let mut active: Option<LaneQuery> = None;
    set_active_query(&mut active, Some(query("ferry", false, LaneQuerySource::Project, None)));
    set_active_query(&mut active, Some(query("lamp", true, LaneQuerySource::Editor(7), Some(2))));
    let q = active.as_ref().expect("a query is active");
    assert_eq!(q.text, "lamp");
    assert!(q.case_sensitive);
    assert_eq!(q.current_in(7), Some(2));
    assert_eq!(
        q.current_in(8),
        None,
        "another item has no current match, even while the query is live"
    );
}

#[test]
fn republishing_the_same_query_changes_nothing() {
    let mut active: Option<LaneQuery> = None;
    assert!(set_active_query(&mut active, Some(query("ferry", false, LaneQuerySource::Project, None))));
    assert!(
        !set_active_query(&mut active, Some(query("ferry", false, LaneQuerySource::Project, None))),
        "an unchanged query must not count as a change"
    );
    assert!(set_active_query(&mut active, None));
    assert!(!set_active_query(&mut active, None));
}

#[test]
fn closing_one_search_does_not_withdraw_the_others_query() {
    let mut active: Option<LaneQuery> = None;
    set_active_query(&mut active, Some(query("ferry", false, LaneQuerySource::Project, None)));
    clear_active_query_from(&mut active, LaneQuerySource::Editor(7));
    assert!(
        active.as_ref().is_some_and(|q| q.text == "ferry"),
        "an editor banner closing must not clear a project search"
    );
    clear_active_query_from(&mut active, LaneQuerySource::Project);
    assert!(active.is_none(), "but its own source may withdraw it");
}

#[test]
fn the_options_are_the_banners_options() {
    let q = LaneQuery {
        text: "strasse".to_string(),
        case_sensitive: false,
        whole_word: true,
        diacritic_sensitive: false,
        source: LaneQuerySource::Project,
        current: None,
    };
    let o = q.options();
    assert!(!o.case_sensitive);
    assert!(o.whole_word);
    assert!(!o.diacritic_sensitive, "folding stays on unless a search says otherwise");
    assert!(!o.use_regex);
}

fn entry(id: u64, title: &str, aliases: &[&str]) -> DiscoverableEntity {
    DiscoverableEntity {
        id,
        title: title.to_string(),
        aliases: aliases.iter().map(|s| s.to_string()).collect(),
    }
}

#[test]
fn only_the_publisher_withdraws_the_subject() {
    let (mine, theirs) = (11u64, 12u64);
    let mut active = Some(LaneSubject {
        entity: entry(7, "Elizabeth", &[]),
        table: Vec::new(),
        work_uid: "w".to_string(),
        publisher: mine,
    });
    assert!(!clear_subject_for(&mut active, theirs));
    assert_eq!(
        active.as_ref().map(|s| (s.note_id(), s.publisher)),
        Some((7, mine)),
        "another reading of the *same* note, in another window, may not withdraw this one"
    );
    assert!(clear_subject_for(&mut active, mine));
    assert!(active.is_none());
}

#[test]
fn the_scan_sees_the_whole_table_with_the_subject_as_the_reading_holds_it() {
    let table = vec![entry(1, "Grace Kelly", &[]), entry(7, "Elizabeth", &[]), entry(2, "Grace", &[])];
    let subject = entry(7, "Elizabeth", &["Lizzy"]);
    let scanned = scan_table(&table, &subject);
    let ids: Vec<u64> = scanned.iter().map(|e| e.id).collect();
    assert_eq!(ids, vec![1, 2, 7]);
    assert_eq!(scanned[2].aliases, vec!["Lizzy".to_string()], "the reading's entry, not the table's");
}

#[test]
fn only_the_subjects_own_hits_are_marked() {
    let found = vec![(7u64, 0usize, 5usize), (3, 6, 5), (7, 13, 9)];
    assert_eq!(own_spans(&found, 7), vec![(0, 5), (13, 22)]);
    assert_eq!(own_spans(&found, 99), Vec::<(usize, usize)>::new());
}

#[test]
fn the_flagged_word_is_read_back_clamped() {
    let text: Vec<char> = "teh quiet room.".chars().collect();
    assert_eq!(word_at(&text, 0, 3), "teh");
    assert_eq!(word_at(&text, 10, 100), "room.");
    assert_eq!(word_at(&text, 40, 2), "");
    assert_eq!(word_at(&text, 4, usize::MAX), "quiet room.");
}

#[test]
fn a_spelling_mark_is_named_by_its_offset_and_reads_its_word() {
    let text: Vec<char> = "Teh cat sat on teh mat".chars().collect();
    // The second flagged word cannot be placed yet, so it draws nothing.
    let marks = spelling_marks(&text, &[(0, 3, true), (8, 3, false), (15, 3, true), (20, 9, true)]);
    assert_eq!(
        marks,
        vec![(0, "Teh".to_string()), (15, "teh".to_string()), (20, "at".to_string())]
    );
}

#[test]
fn marks_paint_by_group_and_keep_their_order_within_one() {
    let search = group_of("search");
    let comments = group_of("comments");
    let spelling = group_of("spelling");
    // Installed as comments, search, comments, spelling, search.
    let groups = [comments, search, comments, spelling, search];
    // spelling (0x4281) < comments (0x8a51) < search (0xa89a).
    assert_eq!(paint_order(&groups), vec![3, 0, 2, 1, 4]);
    assert_eq!(paint_order(&[]), Vec::<usize>::new());
}

#[test]
fn only_open_anchored_threads_with_a_card_are_marked() {
    let live = [
        (1, 10, 20, false), // open, spans text, has a thread
        (2, 30, 30, false), // empty range
        (3, 40, 50, true),  // resolved
        (4, 60, 70, false), // the model no longer backs it
        (5, 80, 90, false),
    ];
    assert_eq!(comment_anchors(true, &live, &[5, 1, 2, 3]), vec![(1, 10, 20), (5, 80, 90)]);
    assert!(comment_anchors(false, &live, &[5, 1, 2, 3]).is_empty(), "hidden comments mark nothing");
}

#[test]
fn two_rows_of_one_stream_get_distinct_story_bible_marks() {
    // The point of view at ordinal zero, then the hits from ordinal one; the
    // second hit cannot be placed, so it draws nothing and the third keeps its ordinal.
    let a = story_bible_marks(101, true, true, true, &[true, false, true]);
    assert_eq!(a, vec![mark_id(101, 0), mark_id(101, 1), mark_id(101, 3)]);
    let b = story_bible_marks(202, true, true, true, &[true]);
    assert!(a.iter().all(|id| !b.contains(id)), "two rows never share a mark");
    // A point of view whose first character is not laid out draws no mark.
    assert_eq!(story_bible_marks(101, true, true, false, &[true]), vec![mark_id(101, 1)]);
    // A reading about another Work's entry marks nothing.
    assert!(story_bible_marks(101, false, true, true, &[true]).is_empty());
}

#[test]
fn a_stack_key_is_fnv1a_over_the_native_bytes_of_each_address() {
    let fnv = |addrs: &[usize]| {
        let mut h: u64 = 0xcbf2_9ce4_8422_2325;
        for a in addrs {
            for b in a.to_ne_bytes() {
                h ^= b as u64;
                h = h.wrapping_mul(0x0000_0100_0000_01b3);
            }
        }
        h
    };
    assert_eq!(key_of(&[]), 0xcbf2_9ce4_8422_2325);
    assert_eq!(key_of(&[7]), fnv(&[7]));
    assert_eq!(key_of(&[0x1234_5678, 42]), fnv(&[0x1234_5678, 42]));
}
