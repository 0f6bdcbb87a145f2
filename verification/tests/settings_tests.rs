use teksilo_ui::dictionaries::{license_hash, DictionarySettingsFile, DICTIONARY_SETTINGS_CURRENT_VERSION};
use teksilo_ui::exchange::{ExchangeFile, SentPackage, SentRow, MAX_PACKAGES, MAX_PROJECTS};
use teksilo_ui::note_files::{NoteBookChoiceFile, NoteCaptureFile, MAX_RECENT_TAGS};
use teksilo_ui::paratext::{clean, preselect_for_locale, user_id, ParatextPreset, ParatextPresetsFile};
use teksilo_ui::styles::{unique_id, ExportStylesFile, StyleEntry, UserStyles, EXPORT_STYLES_CURRENT_VERSION};

// ── dictionaries ─────────────────────────────────────────────────────────────

#[test]
fn acceptance_round_trips_and_is_hash_scoped() {
    let mut f = DictionarySettingsFile::default();
    let hash = license_hash("Mozilla Public License Version 2.0 …");
    assert!(!f.has_accepted("fr-FR-x-1990", &hash), "nothing accepted yet");
    f.accept("fr-FR-x-1990", &hash, "2026-07-15T00:00:00Z");
    assert!(f.has_accepted("fr-FR-x-1990", &hash));
    let other = license_hash("Mozilla Public License Version 2.0 (corrected) …");
    assert!(!f.has_accepted("fr-FR-x-1990", &other), "a changed licence text must not count as accepted");
}

#[test]
fn re_accepting_replaces_rather_than_duplicates() {
    let mut f = DictionarySettingsFile::default();
    let h1 = license_hash("v1");
    let h2 = license_hash("v2");
    f.accept("en-US", &h1, "2026-07-15T00:00:00Z");
    f.accept("en-US", &h2, "2026-07-15T01:00:00Z");
    assert_eq!(f.accepted.len(), 1, "one record per id");
    assert!(f.has_accepted("en-US", &h2));
    assert!(!f.has_accepted("en-US", &h1), "the old hash is gone");
}

#[test]
fn user_dictionaries_add_replace_remove() {
    let mut f = DictionarySettingsFile::default();
    assert!(f.user_dictionaries().is_empty());
    f.add_user_dictionary("fr-FR-x-mine", "My French");
    f.add_user_dictionary("cy-GB", "Cymraeg");
    assert_eq!(f.user_dictionaries().len(), 2);
    f.add_user_dictionary("fr-FR-x-mine", "My French (v2)");
    let list = f.user_dictionaries();
    assert_eq!(list.len(), 2, "one record per code");
    assert_eq!(list.iter().find(|d| d.code == "fr-FR-x-mine").unwrap().name, "My French (v2)");
    f.remove_user_dictionary("fr-FR-x-mine");
    assert_eq!(f.user_dictionaries().len(), 1);
    f.remove_user_dictionary("not-there");
    assert_eq!(f.user_dictionaries().len(), 1);
}

#[test]
fn a_licence_hash_is_blake3_in_lowercase_hex() {
    let h = license_hash("");
    assert_eq!(h, "af1349b9f5f9a1a6a0404dea36dcc9499bcb25c9adc112b7cc9a93cae41f3262");
    assert_eq!(license_hash("v1").len(), 64);
    assert_ne!(license_hash("v1"), license_hash("v2"));
    assert_eq!(DictionarySettingsFile::default().version, DICTIONARY_SETTINGS_CURRENT_VERSION);
    assert_eq!(teksilo_ui::dictionaries::default_version(), 2);
}

// ── export styles ────────────────────────────────────────────────────────────

fn taken(ids: &[&str]) -> Vec<String> {
    ids.iter().map(|s| s.to_string()).collect()
}

#[test]
fn add_fresh_dodges_id_collisions() {
    let builtin = taken(&["manuscript-shunn", "paperback"]);
    let mut styles = UserStyles { entries: Vec::new() };
    // Colliding with a built-in id: suffixed.
    let a = styles.add_fresh("{\"v\":1}".to_string(), "manuscript-shunn", &builtin);
    assert_ne!(a, "manuscript-shunn", "must not reuse a built-in id");
    // A second duplicate of the same preferred id: the next free suffix.
    let b = styles.add_fresh("{\"v\":2}".to_string(), "manuscript-shunn", &builtin);
    assert_ne!(b, a, "two copies get distinct ids");
    assert_eq!((a.as_str(), b.as_str()), ("manuscript-shunn-2", "manuscript-shunn-3"));
    assert_eq!(styles.entries.len(), 2);
    assert_eq!(
        styles.taken_ids(&builtin),
        taken(&["manuscript-shunn", "paperback", "manuscript-shunn-2", "manuscript-shunn-3"])
    );
}

#[test]
fn upsert_edits_in_place_and_remove_drops() {
    let mut styles = UserStyles { entries: Vec::new() };
    let id = styles.add_fresh("{\"name\":\"Mine\"}".to_string(), "my-style", &[]);
    assert_eq!(id, "my-style");
    assert_eq!(styles.entries.len(), 1);
    // Edit in place: same id, changed body.
    styles.upsert(StyleEntry { id: "my-style".to_string(), body: "{\"name\":\"Renamed\"}".to_string() });
    assert_eq!(styles.entries.len(), 1, "upsert edits, never appends a second");
    assert_eq!(styles.entries[0].body, "{\"name\":\"Renamed\"}");
    // A new id is appended.
    styles.upsert(StyleEntry { id: "other".to_string(), body: String::new() });
    assert_eq!(styles.entries.len(), 2);
    styles.remove("my-style");
    assert_eq!(styles.entries.len(), 1);
    assert_eq!(styles.entries[0].id, "other");
    // Removing an absent id is a harmless no-op.
    styles.remove("not-there");
    assert_eq!(styles.entries.len(), 1);
}

#[test]
fn a_free_id_is_kept_and_a_blank_one_becomes_style() {
    assert_eq!(unique_id("my-style", &taken(&["other"])), "my-style");
    assert_eq!(unique_id("   ", &taken(&[])), "style");
    assert_eq!(unique_id("", &taken(&["style", "style-2"])), "style-3");
    assert_eq!(ExportStylesFile::default().version, EXPORT_STYLES_CURRENT_VERSION);
}

// ── paratext presets ─────────────────────────────────────────────────────────

fn preset(id: &str, name: &str, country: &[&str]) -> ParatextPreset {
    ParatextPreset::from_fields(
        id,
        name.to_string(),
        country.iter().map(|c| c.to_string()).collect(),
        "fr".to_string(),
        vec!["Titre".to_string()],
        vec![],
        false,
    )
    .unwrap()
}

#[test]
fn a_preset_is_matched_to_a_locale_by_country() {
    let fr = preset("roman-francais", "Roman français", &["FR", "BE", "CH", "LU"]);
    assert!(fr.serves_locale("fr-FR"));
    assert!(fr.serves_locale("fr_BE"));
    assert!(!fr.serves_locale("fr-CA"), "Canada is not on its list");
    assert!(!fr.serves_locale("fr"), "a bare language names no country");
    assert!(fr.serves_locale("fr-ch"), "the country is compared whatever its case");
}

fn fields_of(source: &str) -> (String, Vec<String>, String, Vec<String>, Vec<String>) {
    let t: toml::Table = source.parse().expect("toml");
    let meta = t["paratext"].as_table().expect("[paratext]");
    let strings = |v: Option<&toml::Value>| -> Vec<String> {
        v.and_then(|v| v.as_array())
            .map(|a| a.iter().filter_map(|s| s.as_str().map(|s| s.to_string())).collect())
            .unwrap_or_default()
    };
    let items = |table: &str| strings(t.get(table).and_then(|s| s.as_table()).and_then(|s| s.get("items")));
    (
        meta["name"].as_str().unwrap_or_default().to_string(),
        strings(meta.get("country")),
        meta.get("language").and_then(|l| l.as_str()).unwrap_or_default().to_string(),
        items("front"),
        items("back"),
    )
}

#[test]
fn a_nameless_preset_is_refused() {
    let (name, country, language, front, back) = fields_of("[paratext]\nname = \"\"\n");
    let err = ParatextPreset::from_fields("x", name, country, language, front, back, true).unwrap_err();
    assert!(err.contains("name"), "got {err}");
}

#[test]
fn blank_items_are_dropped() {
    let (name, country, language, front, back) =
        fields_of("[paratext]\nname = \"X\"\n[front]\nitems = [\"A\", \"  \", \"B\"]\n");
    let p = ParatextPreset::from_fields("x", name, country, language, front, back, true).unwrap();
    assert_eq!(p.front, vec!["A", "B"]);
    assert!(p.editable);
    assert_eq!(clean(vec![" Dédicace ".to_string(), "".to_string()]), vec!["Dédicace"]);
}

#[test]
fn a_users_own_preset_wins_the_preselection() {
    let bundled = preset("roman-francais", "Roman français", &["FR"]);
    let mine = preset(&user_id(0), "Le mien", &["fr"]);
    let us = preset("us-trade", "US trade", &["US"]);
    let all = vec![bundled, us, mine];
    assert_eq!(preselect_for_locale(&all, "fr-FR"), Some(2));
    assert_eq!(preselect_for_locale(&all, "en-US"), Some(1));
    assert_eq!(preselect_for_locale(&all, "de-DE"), None);
    assert_eq!(user_id(12), "user-12");
}

#[test]
fn user_presets_are_added_replaced_and_removed_by_position() {
    let mut f = ParatextPresetsFile::default();
    f.add_user_preset("a");
    f.add_user_preset("b");
    f.replace_user_preset(1, "B");
    f.replace_user_preset(9, "nothing");
    assert_eq!(f.presets, vec!["a", "B"]);
    f.remove_user_preset(0);
    f.remove_user_preset(5);
    assert_eq!(f.presets, vec!["B"]);
}

// ── the exchange file ────────────────────────────────────────────────────────

fn package(sent_at: &str, rows: &[(&str, &str)], comments: &[&str]) -> SentPackage {
    SentPackage {
        sent_at: sent_at.into(),
        output_path: "/tmp/book.docx".into(),
        format: "Docx".into(),
        rows: rows.iter().map(|(uid, digest)| SentRow { item_uid: (*uid).into(), digest: (*digest).into() }).collect(),
        comment_uids: comments.iter().map(|c| (*c).to_string()).collect(),
    }
}

#[test]
fn a_recorded_package_comes_back() {
    let mut s = ExchangeFile::default();
    s.record("uid-1", "The Lighthouse", package("2026-08-14T10:00:00Z", &[("row-a", "0123456789ab")], &["c-1"]));
    let packages = s.packages("uid-1");
    assert_eq!(packages.len(), 1);
    assert_eq!(packages[0].rows[0].digest, "0123456789ab");
    assert!(s.was_sent("uid-1", "c-1"));
    assert!(!s.was_sent("uid-1", "c-2"));
}

#[test]
fn exchange_file_an_unusable_work_uid_is_never_written() {
    let mut s = ExchangeFile::default();
    s.record("", "Untitled", package("2026-08-14T10:00:00Z", &[("row-a", "aaa")], &[]));
    s.record("   ", "Untitled", package("2026-08-14T10:00:00Z", &[("row-a", "aaa")], &[]));
    assert!(s.packages("").is_empty());
    assert!(s.packages("   ").is_empty());
}

#[test]
fn an_export_with_no_marked_rows_is_not_recorded() {
    let mut s = ExchangeFile::default();
    s.record("uid-1", "T", package("2026-08-14T10:00:00Z", &[], &["c-1"]));
    assert!(s.packages("uid-1").is_empty());
}

#[test]
fn the_newest_package_wins_for_a_row_sent_twice() {
    let mut s = ExchangeFile::default();
    s.record("uid-1", "T", package("2026-08-01T10:00:00Z", &[("row-a", "old000000000")], &[]));
    s.record("uid-1", "T", package("2026-08-20T10:00:00Z", &[("row-a", "new000000000")], &[]));
    assert_eq!(s.last_sent_digest("uid-1", "row-a").as_deref(), Some("new000000000"));
    assert_eq!(s.last_sent_digest("uid-1", "row-b"), None);
}

#[test]
fn two_projects_never_clobber_each_other() {
    let mut s = ExchangeFile::default();
    s.record("uid-1", "One", package("2026-08-01T10:00:00Z", &[("a", "111111111111")], &[]));
    s.record("uid-2", "Two", package("2026-08-02T10:00:00Z", &[("b", "222222222222")], &[]));
    assert_eq!(s.packages("uid-1").len(), 1);
    assert_eq!(s.packages("uid-2").len(), 1);
    assert_eq!(s.packages("uid-1")[0].rows[0].item_uid, "a");
    assert_eq!(s.packages("uid-2")[0].rows[0].item_uid, "b");
}

#[test]
fn packages_are_capped_oldest_first() {
    let mut s = ExchangeFile::default();
    for i in 0..(MAX_PACKAGES + 5) {
        s.record("uid-1", "T", package(&format!("2026-08-01T10:00:{i:02}Z"), &[("a", "111111111111")], &[]));
    }
    let packages = s.packages("uid-1");
    assert_eq!(packages.len(), MAX_PACKAGES);
    assert_eq!(packages[0].sent_at, "2026-08-01T10:00:05Z");
}

#[test]
fn projects_beyond_the_cap_evict_the_oldest() {
    let mut s = ExchangeFile::default();
    for i in 0..(MAX_PROJECTS + 3) {
        s.record(&format!("w-{i}"), "T", package("t", &[("a", "1")], &[]));
    }
    assert_eq!(s.projects.len(), MAX_PROJECTS);
    assert!(s.packages("w-0").is_empty());
    assert_eq!(s.packages(&format!("w-{}", MAX_PROJECTS + 2)).len(), 1);
}

#[test]
fn the_cap_evicts_the_least_recently_recorded_project() {
    let mut s = ExchangeFile::default();
    for i in 0..MAX_PROJECTS {
        s.record(&format!("p{i}"), "T", package("t", &[("a", "1")], &[]));
    }
    // Writing to p0 again makes it the newest, so p1 is now the oldest.
    s.record("p0", "T", package("t2", &[("a", "2")], &[]));
    assert_eq!(s.projects.last().unwrap().work_uid, "p0");
    s.record(&format!("p{MAX_PROJECTS}"), "T", package("t", &[("a", "1")], &[]));
    assert_eq!(s.projects.len(), MAX_PROJECTS);
    assert_eq!(s.packages("p0").len(), 2, "the project just written is kept");
    assert!(s.packages("p1").is_empty(), "the least recently written one goes");
}

// ── the note book choice ─────────────────────────────────────────────────────

#[test]
fn a_captured_choice_round_trips() {
    let mut s = NoteBookChoiceFile::default();
    s.set_book("work-1", "/p.skrib", 10);
    assert_eq!(s.book("work-1"), Some(10));
}

#[test]
fn an_unknown_project_reads_as_none() {
    let mut s = NoteBookChoiceFile::default();
    s.set_book("work-1", "", 10);
    assert_eq!(s.book("other-work"), None);
}

#[test]
fn a_blank_work_uid_is_neither_written_nor_read() {
    let mut s = NoteBookChoiceFile::default();
    s.set_book("", "/p.skrib", 10);
    assert_eq!(s.book(""), None);
    s.set_book("  ", "", 10);
    assert_eq!(s.book("  "), None);
    assert!(s.projects.is_empty());
}

#[test]
fn a_later_pick_replaces_the_remembered_book() {
    let mut s = NoteBookChoiceFile::default();
    s.set_book("w", "", 10);
    s.set_book("w", "", 20);
    assert_eq!(s.book("w"), Some(20));
    assert_eq!(s.projects.len(), 1);
}

#[test]
fn projects_are_capped_newest_first() {
    let mut s = NoteBookChoiceFile::default();
    for i in 0..(MAX_PROJECTS + 20) {
        s.set_book(&format!("w-{i}"), "", 1);
    }
    assert_eq!(s.projects.len(), MAX_PROJECTS);
    assert_eq!(s.book(&format!("w-{}", MAX_PROJECTS + 19)), Some(1), "the most recently written project survives the cap");
    assert_eq!(s.book("w-0"), None, "the oldest project was evicted to make room");
}

// ── what "Add as note" remembers ─────────────────────────────────────────────

#[test]
fn a_project_with_no_history_offers_nothing_rather_than_guessing() {
    let f = NoteCaptureFile::default();
    assert!(f.recent_tags("work-a").is_empty());
    assert_eq!(f.untagged_folder("work-a"), None);
}

#[test]
fn re_using_a_tag_moves_it_to_the_front_rather_than_duplicating_it() {
    let mut f = NoteCaptureFile::default();
    f.note_tag_used("w", "/p", 1);
    f.note_tag_used("w", "/p", 2);
    f.note_tag_used("w", "/p", 1);
    assert_eq!(f.recent_tags("w"), vec![1, 2]);
}

#[test]
fn history_outlives_the_visible_tier_but_is_still_bounded() {
    let mut f = NoteCaptureFile::default();
    for n in 0..40u128 {
        f.note_tag_used("w", "/p", n);
    }
    let recents = f.recent_tags("w");
    assert!(recents.len() > MAX_RECENT_TAGS, "more is remembered than shown");
    assert_eq!(recents.len(), MAX_RECENT_TAGS * 2, "but it is bounded");
    assert_eq!(recents[0], 39, "newest first");
}

#[test]
fn projects_do_not_share_their_history() {
    let mut f = NoteCaptureFile::default();
    f.note_tag_used("work-a", "/a", 1);
    f.set_untagged_folder("work-a", "/a", 9);
    assert!(f.recent_tags("work-b").is_empty());
    assert_eq!(f.untagged_folder("work-b"), None);
    assert_eq!(f.recent_tags("work-a"), vec![1]);
}

#[test]
fn note_capture_file_an_unusable_work_uid_is_never_written() {
    let mut f = NoteCaptureFile::default();
    f.note_tag_used("", "/p", 1);
    assert!(f.recent_tags("").is_empty());
    assert!(f.projects.is_empty());
}

#[test]
fn a_nil_tag_uid_is_never_remembered() {
    let mut f = NoteCaptureFile::default();
    f.note_tag_used("w", "/p", 1);
    f.note_tag_used("w", "/p", 0);
    assert_eq!(f.recent_tags("w"), vec![1], "nothing recorded, and the real history untouched");
}

#[test]
fn the_untagged_folder_round_trips() {
    let mut f = NoteCaptureFile::default();
    f.set_untagged_folder("w", "/p", 7);
    assert_eq!(f.untagged_folder("w"), Some(7));
}
