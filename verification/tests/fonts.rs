use markview::cli::Mode;
use markview::font_dirs::{reader_fonts, register_font_dir, FontDirs};
use markview::font_panel::{FontPanel, Refusal, Summary};
use markview::fonts_command::{
    directory_line, download_line, download_plan, list_line, list_rows, occupancy,
    problems_message, unreadable_files, verify_line, DownloadError, Scope,
};
use markview::fonts::{
    action, bytes_label, command_bytes_label, describe, describe_job, fonts_pages, meta_text,
    next_status, state_label, summary_text, Family, FontState, Phase, Progress, RowAction,
};

const SOFT_TOTAL: u64 = 1024 * 1024 * 1024;

fn entry(id: &str, state: FontState) -> Family {
    Family {
        id: id.into(),
        description: Some("described".into()),
        license: Some("OFL-1.1".into()),
        owners: vec!["builtin".into()],
        state,
        bytes: 1024 * 1024,
    }
}

fn queued(id: &str) -> Progress {
    Progress {
        id: id.into(),
        phase: Phase::Queued,
        current: None,
        files_done: 0,
        files_total: 0,
        bytes_done: 0,
        bytes_total: None,
        note: None,
    }
}

#[test]
fn fonts_the_summary_counts_what_is_missing() {
    let catalog = vec![entry("a", FontState::Missing), entry("b", FontState::Downloaded)];
    let shown = vec![0, 1];
    let text = summary_text(&catalog, &shown, None, SOFT_TOTAL);
    assert!(text.contains("2 families"), "{text}");
    assert!(text.contains("1 to download"), "{text}");
    assert!(text.contains("2.0 MiB"), "{text}");
    // A note stands in for the whole line.
    assert_eq!(summary_text(&catalog, &shown, Some("Offline"), SOFT_TOTAL), "Offline");
}

#[test]
fn view_the_summary_counts_what_is_missing() {
    let catalog = vec![entry("a", FontState::Missing), entry("b", FontState::Downloaded)];
    let text = summary_text(&catalog, &[0, 1], None, SOFT_TOTAL);
    assert_eq!(text, "2 families, 1 to download, 2.0 MiB on disk");
    let large = summary_text(&catalog, &[0, 1], None, 1024 * 1024);
    assert_eq!(large, "2 families, 1 to download, 2.0 MiB on disk — the font directory is large");
}

#[test]
fn fonts_a_family_reports_its_license_and_owner() {
    let family = entry("a", FontState::Provided);
    let meta = meta_text(&family);
    assert!(meta.contains("Installed"), "{meta}");
    assert!(meta.contains("OFL-1.1"), "{meta}");
    assert!(meta.contains("builtin"), "{meta}");
}

#[test]
fn view_a_family_reports_its_license_and_owner() {
    let mut family = entry("a", FontState::Provided);
    family.owners.push("paper".into());
    assert_eq!(meta_text(&family), "Installed · OFL-1.1 · 1.0 MiB · builtin, paper");
    family.license = None;
    family.bytes = 0;
    family.owners.clear();
    assert_eq!(meta_text(&family), "Installed");
}

#[test]
fn fonts_a_running_family_offers_cancelling_instead_of_downloading() {
    assert_eq!(action(FontState::Missing, true), ("Cancel", RowAction::Cancel));
    assert_eq!(action(FontState::Missing, false), ("Download", RowAction::Download));
    assert_eq!(action(FontState::Downloaded, false), ("Download again", RowAction::DownloadAgain));
}

#[test]
fn view_a_running_family_offers_cancelling_instead_of_downloading() {
    let mut panel = FontPanel::new();
    panel.catalog = vec![entry("a", FontState::Missing)];
    panel.progress(queued("a"));
    let (idle, busy) = panel.not_running(&panel.shown_font_ids());
    // Nothing is left to start.
    assert!(idle.is_empty());
    assert!(busy);
}

#[test]
fn sizes_follow_the_page_and_the_command_line() {
    assert_eq!(bytes_label(0), "0 KiB");
    assert_eq!(bytes_label(1536), "1 KiB");
    assert_eq!(bytes_label(1024 * 1024), "1.0 MiB");
    assert_eq!(bytes_label(1024 * 1024 * 3 / 2), "1.5 MiB");
    assert_eq!(command_bytes_label(512), "512 B");
    assert_eq!(command_bytes_label(2048), "2 KiB");
    assert_eq!(command_bytes_label(10 * 1024 * 1024), "10.0 MiB");
    // A tie rounds to the even tenth, as `{:.1}` does.
    assert_eq!(bytes_label(1_310_720), "1.2 MiB");
    assert_eq!(bytes_label(1_835_008), "1.8 MiB");
    assert_eq!(bytes_label(u64::MAX), format!("{:.1} MiB", u64::MAX as f64 / (1024.0 * 1024.0)));
    for bytes in [1_048_576u64, 1_310_720, 1_835_008, 1_100_000, 5_000_000, 123_456_789, 9_999_999_999] {
        assert_eq!(bytes_label(bytes), format!("{:.1} MiB", bytes as f64 / (1024.0 * 1024.0)));
    }
}

#[test]
fn states_and_pages_read_as_the_page_shows_them() {
    assert_eq!(state_label(FontState::Downloaded), "On disk");
    assert_eq!(state_label(FontState::Provided), "Installed");
    assert_eq!(state_label(FontState::Missing), "Missing");
    assert_eq!(fonts_pages(3, 0), 1);
    assert_eq!(fonts_pages(3, 7), 3);
    assert_eq!(fonts_pages(0, 2), 2);
    assert_eq!(fonts_pages(4, 8), 2);
    assert_eq!(next_status(None), Some(FontState::Missing));
    assert_eq!(next_status(Some(FontState::Downloaded)), None);
}

#[test]
fn progress_lines_name_the_phase_file_and_amount() {
    let mut p = queued("noto");
    p.phase = Phase::Downloading;
    p.current = Some("a.ttf".into());
    p.files_done = 1;
    p.files_total = 3;
    p.bytes_done = 512;
    assert_eq!(describe(&p), "noto: downloading a.ttf 1/3 files 512 B");
    assert_eq!(describe_job(&p), "Downloading a.ttf — 1/3 files, 0 KiB");
    p.bytes_total = Some(2048);
    p.note = Some("slow".into());
    assert_eq!(describe_job(&p), "Downloading a.ttf — 1/3 files, 25% — slow");
    p.bytes_done = 4096;
    assert_eq!(describe_job(&p), "Downloading a.ttf — 1/3 files, 100% — slow");
}

fn panel() -> FontPanel {
    let mut panel = FontPanel::new();
    panel.catalog = (0..3)
        .map(|index| {
            let mut family = entry(&format!("f{index}"), if index == 2 {
                FontState::Provided
            } else {
                FontState::Missing
            });
            family.owners = vec![if index == 0 { "builtin" } else { "custom" }.into()];
            family
        })
        .collect();
    panel
}

#[test]
fn filters_and_row_commands_address_the_same_families() {
    let mut panel = panel();
    panel.next_font_source();
    panel.next_font_source();
    panel.next_font_status();
    assert_eq!(panel.shown_fonts(), vec![1]);
    let id = panel.catalog[1].id.clone();
    panel.progress(queued(&id));
    if let Some(id) = panel.shown_font_id(0) {
        panel.cancel_font(&id);
    }
    assert!(panel.cancel.contains(&id));
    let (idle, busy) = panel.not_running(&panel.shown_font_ids());
    let refusal = panel.start(&idle, busy, true, true);
    assert_eq!(refusal, Some(Refusal::Busy));
    assert_eq!(panel.note.as_deref(), Some("Those families are already downloading"));
}

#[test]
fn settling_one_download_preserves_other_jobs_and_allows_retry() {
    let mut panel = panel();
    let ids = panel.shown_font_ids();
    for id in &ids {
        panel.progress(queued(id));
    }
    panel.settled(&Summary {
        requested: vec![ids[0].clone()],
        failed: Vec::new(),
        cancelled: vec![ids[0].clone()],
        stored: 0,
        bytes: 0,
    });
    assert!(!panel.jobs.iter().any(|job| job.id == ids[0]));
    assert!(panel.jobs.iter().any(|job| job.id == ids[1]));
    assert_eq!(panel.note.as_deref(), Some("f0: cancelled"));
    let (idle, busy) = panel.not_running(&[panel.shown_font_id(0).unwrap()]);
    assert_eq!(panel.start(&idle, busy, true, true), Some(Refusal::Offline));
    assert_eq!(panel.note.as_deref(), Some("Offline: font downloads are unavailable"));
}

#[test]
fn sources_cycle_through_each_declaring_sheet_once() {
    let mut panel = panel();
    panel.catalog[2].owners = vec!["custom".into(), "paper".into()];
    assert_eq!(panel.font_sources(), ["builtin", "custom", "paper"]);
    let mut seen = Vec::new();
    for _ in 0..4 {
        panel.next_font_source();
        seen.push(panel.source_filter.clone());
    }
    assert_eq!(
        seen,
        [Some("builtin".to_string()), Some("custom".to_string()), Some("paper".to_string()), None]
    );
}

#[test]
fn starting_a_download_queues_each_family_and_lifts_its_cancel() {
    let mut panel = panel();
    panel.cancel_font("f1");
    let selected = vec!["f0".to_string(), "f1".to_string()];
    assert_eq!(panel.start(&selected, false, false, true), None);
    assert_eq!(panel.note, None);
    assert_eq!(panel.jobs.len(), 2);
    assert!(panel.jobs.iter().all(|job| job.phase == Phase::Queued));
    assert!(panel.cancel.is_empty());
    assert_eq!(panel.start(&[], false, false, true), Some(Refusal::Present));
    let mut fresh = self::panel();
    assert_eq!(fresh.start(&selected[..1], false, false, false), Some(Refusal::NoDirectory));
    assert_eq!(fresh.note.as_deref(), Some("No user configuration directory"));
    assert!(fresh.jobs.is_empty());
}

#[test]
fn a_run_that_stored_files_says_how_much() {
    let mut panel = panel();
    panel.settled(&Summary {
        requested: vec!["f0".into()],
        failed: Vec::new(),
        cancelled: Vec::new(),
        stored: 3,
        bytes: 5 * 1024 * 1024 + 7,
    });
    assert_eq!(panel.note.as_deref(), Some("3 files stored, 5 MiB"));
    panel.settled(&Summary {
        requested: Vec::new(),
        failed: vec![("f1".into(), "no route".into())],
        cancelled: vec!["f0".into()],
        stored: 1,
        bytes: 0,
    });
    assert_eq!(panel.note.as_deref(), Some("f1: no route"));
    panel.settled(&Summary {
        requested: Vec::new(),
        failed: Vec::new(),
        cancelled: Vec::new(),
        stored: 0,
        bytes: 0,
    });
    assert_eq!(panel.note.as_deref(), Some("Nothing to download"));
}

#[test]
fn an_offline_download_is_refused() {
    let offered = vec!["noto-serif".to_string()];
    let error = download_plan(&offered, &[], false, false, true).err().unwrap();
    assert_eq!(error, DownloadError::Offline);
    let text = error.message();
    assert!(text.contains("Offline"), "{text}");
}

#[test]
fn a_command_that_only_reads_the_disk_works_offline() {
    let offered = vec!["noto-serif".to_string(), "inter".to_string()];
    let (ids, scope) = download_plan(&offered, &[], false, true, true).unwrap();
    assert_eq!(ids, offered);
    assert_eq!(scope, Scope::Missing);
}

#[test]
fn a_download_names_what_it_selects() {
    let offered = vec!["noto-serif".to_string(), "inter".to_string()];
    let named = vec!["inter".to_string()];
    assert_eq!(download_plan(&offered, &named, false, false, false).unwrap(), (named.clone(), Scope::Named));
    assert_eq!(download_plan(&offered, &named, true, false, false).unwrap().1, Scope::All);
    let unknown = vec!["inter".to_string(), "klingon".to_string(), "x".to_string()];
    assert_eq!(
        download_plan(&offered, &unknown, false, false, false).err(),
        Some(DownloadError::UnknownFamily("klingon".into()))
    );
    assert_eq!(
        DownloadError::UnknownFamily("a\"b".into()).message(),
        "No font family named \"a\\\"b\""
    );
}

#[test]
fn the_command_lines_line_up_in_columns() {
    let mut family = entry("noto-serif", FontState::Missing);
    family.owners.push("paper".into());
    assert_eq!(
        list_line(&family, "Noto Serif"),
        "noto-serif             missing      1.0 MiB  Noto Serif                   OFL-1.1    builtin, paper\n"
    );
    family.license = None;
    family.state = FontState::Downloaded;
    family.bytes = 2048;
    assert_eq!(
        list_line(&family, "Noto Serif"),
        "noto-serif             on disk        2 KiB  Noto Serif                   -          builtin, paper\n"
    );
    assert_eq!(verify_line(&family), ("noto-serif             2 KiB on disk\n".to_string(), false));
    family.state = FontState::Missing;
    assert_eq!(verify_line(&family), ("noto-serif             missing\n".to_string(), true));
    let catalog = vec![entry("a", FontState::Missing), entry("b", FontState::Provided), entry("c", FontState::Missing)];
    assert_eq!(list_rows(&catalog, false), vec![0, 2]);
    assert_eq!(list_rows(&catalog, true), vec![0, 1, 2]);
    assert_eq!(directory_line("/fonts", 3, 3 * 1024 * 1024), "/fonts: 3 families, 3.0 MiB on disk\n");
    assert_eq!(problems_message(2), "2 font problem(s)");
    assert_eq!(download_line(2, 512, 1, 0), "2 families stored, 512 B downloaded, 1 failed, 0 cancelled\n");
}

#[test]
fn verify_names_only_files_that_are_not_fonts() {
    let names: Vec<String> = ["a.ttf", "b.otf.tmp", "notes.txt", "c.ttf"].iter().map(|s| s.to_string()).collect();
    let described: Vec<String> = ["a.ttf", "c.ttf"].iter().map(|s| s.to_string()).collect();
    assert_eq!(unreadable_files(&names, &described), ["notes.txt"]);
}

#[test]
fn the_directory_counts_every_file_and_names_the_unclaimed() {
    let files: Vec<(String, u64)> = [("a.ttf", 100u64), (".partial", 5), ("notes.txt", 7), ("b.otf", 20)]
        .iter()
        .map(|(n, s)| (n.to_string(), *s))
        .collect();
    let claimed: Vec<String> = ["a.ttf", "b.otf"].iter().map(|s| s.to_string()).collect();
    assert_eq!(occupancy(&files, &claimed), (132, vec!["notes.txt".to_string()]));
    assert_eq!(occupancy(&[], &claimed), (0, Vec::new()));
}

#[test]
fn the_personal_directory_joins_the_reader_but_not_the_export_config() {
    let dir = "/tmp/markview-fonts".to_string();
    let args = FontDirs { directories: Vec::new(), ignore_system_fonts: false, revision: 0 };
    let reader = reader_fonts(&args, Mode::Window, Some(dir.clone()));
    assert_eq!(reader.directories, vec![dir.clone()]);
    assert!(args.directories.is_empty());
    // A reproducible run keeps its pinned set in the window too.
    let pinned = FontDirs { directories: Vec::new(), ignore_system_fonts: true, revision: 0 };
    let reader = reader_fonts(&pinned, Mode::Window, Some(dir.clone()));
    assert!(reader.directories.is_empty());
    // Only the reader window gains it.
    assert!(reader_fonts(&args, Mode::Pdf, Some(dir)).directories.is_empty());
}

#[test]
fn a_finished_download_bumps_the_revision_only_after_storing_a_file() {
    let dir = "/tmp/markview-fonts".to_string();
    // A job that stored nothing leaves the configuration untouched, so an
    // identical collection is not built and cached again.
    let mut config = FontDirs { directories: Vec::new(), ignore_system_fonts: false, revision: 0 };
    assert!(!register_font_dir(&mut config, dir.clone(), 0));
    assert!(config.directories.is_empty());
    assert_eq!(config.revision, 0);
    // Storing a file adds the directory and advances the revision.
    assert!(register_font_dir(&mut config, dir.clone(), 1));
    assert_eq!(config.directories, vec![dir.clone()]);
    assert_eq!(config.revision, 1);
    // A later job that stores into the known directory still advances,
    // because the same paths now name new faces.
    assert!(register_font_dir(&mut config, dir.clone(), 2));
    assert_eq!(config.directories, vec![dir]);
    assert_eq!(config.revision, 2);
}
