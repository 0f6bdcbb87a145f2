use teksilo_ui::lane_ids::key_of;
use teksilo_ui::memprof::{
    carry_label, class_bounds, is_large, large_threshold_from, marker_command, page_size_or_default, rank_by_live, report_lines, size_class,
    smaps_bytes, smaps_bytes_fit, snapshot, statm_bytes, statm_bytes_fit, Counters, MarkerCommand, SiteLine,
    Sites, Snapshot, DEFAULT_LARGE_THRESHOLD, SIZE_CLASS_COUNT,
};

#[test]
fn size_class_buckets_by_power_of_two() {
    assert_eq!(size_class(1), 1);
    assert_eq!(size_class(2), 2);
    assert_eq!(size_class(3), 2);
    assert_eq!(size_class(4), 3);
    assert_eq!(size_class(255), 8);
    assert_eq!(size_class(256), 9);
    assert_eq!(size_class(usize::MAX), SIZE_CLASS_COUNT - 1);
}

#[test]
fn a_zero_byte_allocation_is_its_own_class() {
    assert_eq!(size_class(0), 0);
}

/// A snapshot of a running process: its counters as the allocator keeps them,
/// and the kernel's two files as `/proc/self/statm` and
/// `/proc/self/smaps_rollup` give them for it.
fn live_snapshot() -> Snapshot {
    let statm = "62218 9531 6085 287 0 3514 0\n";
    let smaps = "5572f26e2000-7ffd4e3ff000 ---p 00000000 00:00 0                          [rollup]\n\
Rss:               38124 kB\n\
Pss:               33610 kB\n\
Pss_Dirty:          9476 kB\n\
Pss_Anon:           9420 kB\n\
Pss_File:          24190 kB\n\
Pss_Shmem:             0 kB\n\
Shared_Clean:       5104 kB\n\
Shared_Dirty:          0 kB\n\
Private_Clean:     23544 kB\n\
Private_Dirty:      9476 kB\n\
Referenced:        38124 kB\n\
Anonymous:          9420 kB\n\
LazyFree:              0 kB\n\
AnonHugePages:         0 kB\n\
Swap:                  0 kB\n\
SwapPss:               0 kB\n\
Locked:                0 kB\n";
    let page = page_size_or_default(4096);
    assert!(statm_bytes_fit(statm, page));
    assert!(smaps_bytes_fit(smaps));
    let counters = Counters { live: 6 << 20, peak: 7 << 20, allocs: 10_000, frees: 9_000, total_bytes: 40 << 20 };
    snapshot(counters, statm, smaps, page)
}

#[test]
fn snapshot_reports_a_plausible_rss() {
    let s = live_snapshot();
    assert!(s.rss > 0, "no RSS read from /proc/self/statm");
    assert!(s.vsz >= s.rss);
    assert!(s.peak >= s.live);
}

#[test]
fn anonymous_and_file_rss_add_up_to_rss() {
    let s = live_snapshot();
    assert!(s.rss_anon > 0, "no anonymous RSS in /proc/self/smaps_rollup");
    assert!(s.rss_file > 0, "a mapped binary always has file-backed pages");
    let sum = s.rss_anon + s.rss_file;
    assert!(sum * 2 > s.rss && sum < s.rss * 2, "rss={} anon+file={sum}", s.rss);
}

#[test]
fn overhead_is_measured_against_anonymous_rss_only() {
    let s = live_snapshot();
    assert_eq!(s.allocator_overhead(), s.rss_anon.saturating_sub(s.live));
}

#[test]
fn statm_is_pages_of_rss_then_vsz() {
    assert_eq!(statm_bytes("300 100 20 5 0 50 0\n", 4096), (100 * 4096, 300 * 4096));
    assert_eq!(statm_bytes("", 4096), (0, 0));
    assert!(!statm_bytes_fit("18446744073709551615 2", 4096));
}

#[test]
fn smaps_rollup_splits_anonymous_from_file_backed() {
    let text = "00400000-7fff [rollup]\nRss:                2048 kB\nPss:  1000 kB\nAnonymous:           512 kB\n";
    assert_eq!(smaps_bytes(text), (512 * 1024, (2048 - 512) * 1024));
    let older = "Rss: 100 kB\nRss_Anon: 40 kB\nRss_File: 60 kB\n";
    assert_eq!(smaps_bytes(older), (40 * 1024, 60 * 1024));
    assert_eq!(smaps_bytes("no colon here\n"), (0, 0));
}

#[test]
fn a_page_size_the_kernel_does_not_give_falls_back() {
    assert_eq!(page_size_or_default(16384), 16384);
    assert_eq!(page_size_or_default(0), 4096);
    assert_eq!(page_size_or_default(-1), 4096);
}

#[test]
fn the_threshold_variable_is_read_as_a_number() {
    assert_eq!(large_threshold_from(None), DEFAULT_LARGE_THRESHOLD);
    assert_eq!(large_threshold_from(Some("65536")), 65536);
    assert_eq!(large_threshold_from(Some("0")), 0);
    assert_eq!(large_threshold_from(Some("lots")), DEFAULT_LARGE_THRESHOLD);
    assert!(!is_large(0, 1 << 30), "a zero threshold turns capture off");
    assert!(is_large(4096, 4096));
    assert!(!is_large(4096, 4095));
}

#[test]
fn a_large_allocation_is_attributed_and_given_back() {
    let mut sites = Sites::new();
    let frames = vec![0x1000usize, 0x2000];
    let key = key_of(&frames);
    assert!(sites.can_record(&frames, 100));
    sites.record_large(0xdead, 100, frames.clone());
    sites.record_large(0xbeef, 50, frames.clone());
    let s = &sites.by_key[&key];
    assert_eq!((s.live, s.total, s.live_blocks, s.peak), (150, 150, 2, 150));
    sites.forget_large(0xdead);
    let s = &sites.by_key[&key];
    assert_eq!((s.live, s.total, s.live_blocks, s.peak), (50, 150, 1, 150));
    sites.forget_large(0x1234);
    assert_eq!(sites.by_key[&key].live, 50, "an unknown pointer changes nothing");
}

fn line(key: u64, live: usize) -> SiteLine {
    SiteLine { key, live, total: live as u64, live_blocks: 1, peak: live }
}

#[test]
fn the_report_ranks_sites_by_live_bytes() {
    let ranked = rank_by_live(vec![line(1, 10), line(2, 300), line(3, 10), line(4, 20)]);
    let keys: Vec<u64> = ranked.iter().map(|l| l.key).collect();
    assert_eq!(keys, vec![2, 4, 1, 3]);
}

#[test]
fn the_marker_file_asks_for_a_trim_a_report_or_a_label() {
    assert_eq!(marker_command("trim\n"), MarkerCommand::Trim);
    assert_eq!(marker_command("  sites:after-close \nmore"), MarkerCommand::Sites("after-close".to_string()));
    assert_eq!(marker_command("opened Full Book"), MarkerCommand::Label("opened Full Book".to_string()));
    assert_eq!(marker_command(""), MarkerCommand::Label(String::new()));
}

#[test]
fn a_label_is_carried_until_another_replaces_it() {
    let mut last = String::new();
    assert_eq!(carry_label("opened".to_string(), &mut last), "opened");
    assert_eq!(carry_label(String::new(), &mut last), "opened");
    assert_eq!(carry_label("closed".to_string(), &mut last), "closed");
    assert_eq!(last, "closed");
}

#[test]
fn class_bounds_frame_each_size_class() {
    assert_eq!(class_bounds(0), (0, 1));
    assert_eq!(class_bounds(1), (1, 2));
    assert_eq!(class_bounds(9), (256, 512));
    assert_eq!(class_bounds(SIZE_CLASS_COUNT - 1), (1 << 30, 1 << 31));
    // Every size falls in the class whose bounds hold it.
    for bytes in [0usize, 1, 3, 255, 256, 65_536, 1 << 29] {
        let (lo, hi) = class_bounds(size_class(bytes));
        assert!(lo <= bytes && bytes < hi, "{bytes} outside {lo}..{hi}");
    }
}

#[test]
fn the_report_lists_the_first_sixty_sites_with_bytes_live() {
    let line = |key: u64, live: usize| SiteLine { key, live, total: live as u64, live_blocks: 1, peak: live };
    let mut ranked: Vec<SiteLine> = (0..70u64).map(|k| line(k, 1000 - k as usize)).collect();
    ranked[2].live = 0;
    let picks = report_lines(&ranked);
    assert_eq!(picks.len(), 59, "one of the first sixty has nothing live");
    assert_eq!(picks[0], 0);
    assert_eq!(picks[2], 3, "the site with nothing live is passed over");
    assert_eq!(*picks.last().unwrap(), 59, "nothing past the sixtieth is listed");
    assert!(report_lines(&[line(1, 0)]).is_empty());
}
