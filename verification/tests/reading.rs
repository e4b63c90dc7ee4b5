use markview::anchor::{link_fragment, link_target};
use markview::benchmark::{memory_from_status, Memory};
use markview::outline::{normalize as keep_outline, OutlineFocus};
use markview::paths::{normalize, relative_to, PathPart};
use markview::preferences::{setting_changed, Preferences, Setting, SAVE_DELAY_MS};
use markview::search::{fresh, next_match, retained_index, SearchMatch, Stamp};
use markview::text::{decimal_string, trimmed};

fn parts(path: &str) -> Vec<PathPart> {
    let mut out = Vec::new();
    if path.starts_with('/') {
        out.push(PathPart::Root);
    }
    for piece in path.split('/').filter(|p| !p.is_empty()) {
        out.push(match piece {
            "." => PathPart::Current,
            ".." => PathPart::Parent,
            other => PathPart::Normal(other.to_string()),
        });
    }
    out
}

fn shown(list: &[PathPart]) -> String {
    let mut out = String::new();
    for part in list {
        match part {
            PathPart::Root => out.push('/'),
            PathPart::Prefix(p) => out.push_str(p),
            PathPart::Current => out.push_str("./"),
            PathPart::Parent => out.push_str("../"),
            PathPart::Normal(n) => {
                out.push_str(n);
                out.push('/');
            }
        }
    }
    out.trim_end_matches('/').to_string()
}

#[test]
fn a_link_splits_into_its_document_and_decoded_fragment() {
    assert_eq!(link_target("other.md#getting-started"), "other.md");
    assert_eq!(link_target("https://example.com/a#b"), "https://example.com/a");
    assert_eq!(link_target("#section"), "");
    assert_eq!(link_target("other.md"), "other.md");
    assert_eq!(link_fragment("other.md"), None);
    assert_eq!(link_fragment("#"), None);
    assert_eq!(link_fragment("#section"), Some("section".into()));
    assert_eq!(link_fragment("#中文"), Some("中文".into()));
    assert_eq!(link_fragment("other.md#a%20b"), Some("a b".into()));
    assert_eq!(link_fragment("file:///tmp/a.md#getting-started"), Some("getting-started".into()));
}

#[test]
fn a_percent_escape_is_decoded_and_a_broken_one_kept() {
    assert_eq!(link_fragment("#%E4%B8%AD"), Some("中".into()));
    assert_eq!(link_fragment("#100%"), Some("100%".into()));
}

#[test]
fn a_shorter_path_relative_to_the_document_wins() {
    let document_dir = parts("/home/someone/Documents/notes/reading");
    let sibling = parts("/home/someone/Documents/notes/reading/targets/payload.desktop");
    assert_eq!(shown(&relative_to(&sibling, &document_dir).unwrap()), "targets/payload.desktop");
    let up = parts("/home/someone/Documents/notes/reading/../archive/payload.desktop");
    assert_eq!(shown(&relative_to(&up, &document_dir).unwrap()), "../archive/payload.desktop");
    // A far away target has no short relative form.
    let far = parts("/etc/init.d/payload.desktop");
    assert!(relative_to(&far, &document_dir).is_none());
    // A root-level file has nothing shorter to say.
    assert!(relative_to(&parts("/payload"), &document_dir).is_none());
}

#[test]
fn a_relative_path_joined_to_its_base_leads_back() {
    let base = parts("/home/someone/notes/reading");
    let path = parts("/home/someone/archive/old/a.md");
    let rel = relative_to(&path, &base).unwrap();
    assert_eq!(shown(&rel), "../../archive/old/a.md");
    let mut joined = parts("/home/someone/notes/reading");
    joined.extend(rel);
    assert_eq!(normalize(&joined), path);
}

#[test]
fn same_target_resolves_equivalent_paths_to_one_file() {
    let file = normalize(&parts("/tmp/dir/a.md"));
    assert_eq!(normalize(&parts("/tmp/dir/./a.md")), file);
    assert_eq!(normalize(&parts("/tmp/dir/sub/../a.md")), file);
    assert_ne!(normalize(&parts("/tmp/dir/b.md")), file);
}

#[test]
fn search_steps_wrap_and_start_near_the_view() {
    let reached = [false, true, true];
    assert_eq!(next_match(Some(2), 3, false, &reached), 0);
    assert_eq!(next_match(Some(0), 3, true, &reached), 2);
    assert_eq!(next_match(Some(1), 3, false, &reached), 2);
    assert_eq!(next_match(None, 3, false, &reached), 1);
    assert_eq!(next_match(None, 3, true, &[true, true, false]), 1);
    assert_eq!(next_match(None, 3, false, &[false, false, false]), 0);
    assert_eq!(next_match(None, 3, true, &[false, false, false]), 2);
    // Forward then back is where it started.
    for i in 0..3 {
        let there = next_match(Some(i), 3, false, &reached);
        assert_eq!(next_match(Some(there), 3, true, &reached), i);
    }
}

#[test]
fn the_outline_keeps_its_selection_on_a_row() {
    let rows = [0, 2, 5, 7];
    assert_eq!(keep_outline(&rows, Some(5), None), (Some(5), None));
    assert_eq!(keep_outline(&rows, Some(6), None), (Some(5), None));
    assert_eq!(keep_outline(&rows, None, None), (Some(0), None));
    assert_eq!(keep_outline(&[3, 4], Some(1), None), (Some(3), None));
    assert_eq!(keep_outline(&[], Some(1), Some(OutlineFocus::Goto(1))), (None, None));
    assert_eq!(
        keep_outline(&rows, Some(6), Some(OutlineFocus::Toggle(6))),
        (Some(5), Some(OutlineFocus::Goto(5)))
    );
    assert_eq!(
        keep_outline(&rows, Some(6), Some(OutlineFocus::Toggle(7))),
        (Some(5), Some(OutlineFocus::Toggle(7)))
    );
    assert_eq!(
        keep_outline(&rows, Some(6), Some(OutlineFocus::Elsewhere)),
        (Some(5), Some(OutlineFocus::Elsewhere))
    );
}

#[test]
fn a_change_is_saved_after_the_delay_and_a_flush_clears_it() {
    let mut p = Preferences::new(None, None);
    assert!(p.save_deadline().is_none());
    p.schedule_save(1_000);
    assert_eq!(p.save_deadline(), Some(1_000 + SAVE_DELAY_MS));
    p.changed(2_000);
    assert_eq!(p.save_deadline(), Some(2_250));
    assert!(!p.flush(Err("disk full".into())));
    assert_eq!(p.settings_warning.as_deref(), Some("Cannot save settings: disk full"));
    assert!(p.save_deadline().is_none());
    assert!(p.flush(Ok(())));
    assert!(p.settings_warning.is_none());
    assert!(!p.reload(Err("bad toml".into()), true, 3_000));
    assert_eq!(p.settings_warning.as_deref(), Some("bad toml"));
    assert!(p.save_deadline().is_none());
    assert!(p.reload(Ok(()), true, 3_000));
    assert_eq!(p.save_deadline(), Some(3_250));
    assert!(p.settings_warning.is_none());
    p.style_prev();
    assert_eq!(p.style_page, 0);
    p.style_next();
    p.style_next();
    p.style_prev();
    assert_eq!(p.style_page, 1);
}

#[test]
fn memory_reads_the_resident_set_from_the_status_text() {
    let status = "Name:\tmarkview\nVmHWM:\t  204800 kB\nVmRSS:\t  102400 kB\nThreads:\t12\n";
    assert_eq!(
        memory_from_status(status),
        Memory { linux_rss_bytes: Some(102_400 * 1024), linux_peak_rss_bytes: Some(204_800 * 1024) }
    );
    assert_eq!(
        memory_from_status(""),
        Memory { linux_rss_bytes: None, linux_peak_rss_bytes: None }
    );
    // A line must start with the key, and its second word must be a number.
    let odd = " VmRSS: 5 kB\nVmHWM: lots\nVmRSS: +7\r\n";
    assert_eq!(
        memory_from_status(odd),
        Memory { linux_rss_bytes: Some(7 * 1024), linux_peak_rss_bytes: None }
    );
    assert_eq!(memory_from_status("VmRSS:\n").linux_rss_bytes, None);
    assert_eq!(memory_from_status("VmRSS: 18446744073709551616 kB").linux_rss_bytes, None);
    // Past what a `u64` holds in bytes the count wraps, as the release build's does.
    assert_eq!(
        memory_from_status("VmRSS: 18014398509481985 kB").linux_rss_bytes,
        Some(18_014_398_509_481_985u64.wrapping_mul(1024))
    );
}

#[test]
fn text_helpers_trim_and_count() {
    assert_eq!(trimmed("  a b \u{3000}"), "a b");
    assert_eq!(trimmed(" \t\n"), "");
    assert_eq!(decimal_string(0), "0");
    assert_eq!(decimal_string(18_446_744_073_709_551_615), "18446744073709551615");
}

#[test]
fn a_changed_setting_is_no_longer_the_command_lines() {
    let mut overrides = vec![Setting::FontSize, Setting::Theme, Setting::Width, Setting::Theme];
    assert!(!setting_changed(&mut overrides, Some(Setting::FontSize)));
    assert_eq!(overrides, vec![Setting::Theme, Setting::Width, Setting::Theme]);
    assert!(setting_changed(&mut overrides, Some(Setting::Theme)));
    assert_eq!(overrides, vec![Setting::Width]);
    assert!(setting_changed(&mut overrides, None));
    assert!(overrides.is_empty());
}

fn hit(block: usize, start: usize, enclosing: &[usize]) -> SearchMatch {
    SearchMatch { block, field: 0, start, end: start + 3, enclosing: enclosing.to_vec() }
}

#[test]
fn the_current_match_survives_a_refresh_when_it_is_still_there() {
    let matches = vec![hit(0, 4, &[]), hit(2, 1, &[7]), hit(2, 9, &[]), hit(5, 0, &[])];
    assert_eq!(retained_index(&matches, &hit(2, 9, &[])), Some(2));
    assert_eq!(retained_index(&matches, &hit(2, 1, &[7])), Some(1));
    // The same place inside other sections is another match.
    assert_eq!(retained_index(&matches, &hit(2, 1, &[])), None);
    assert_eq!(retained_index(&matches, &hit(3, 0, &[])), None);
    assert_eq!(retained_index(&[], &hit(0, 0, &[])), None);
}

#[test]
fn only_the_latest_search_reaches_the_session() {
    let stamp = Stamp { path: "a.md".into(), content: 3, sequence: 7 };
    assert!(fresh(Some("a.md"), 3, 7, &stamp));
    assert!(!fresh(Some("a.md"), 3, 8, &stamp));
    assert!(!fresh(Some("a.md"), 4, 7, &stamp));
    assert!(!fresh(Some("b.md"), 3, 7, &stamp));
    assert!(!fresh(None, 3, 7, &stamp));
}
