use markview::cli::{
    authors, bench_iterations, cjk_type_from_name, download_jobs, finish, is_language_tag,
    keywords, legacy_hint, CjkType, LaunchChecks, LaunchError, Mode,
};

fn checks(mode: Mode) -> LaunchChecks {
    LaunchChecks { mode, style: false, theme: false, path: true, output: true, watch: false }
}

fn strings(list: &[&str]) -> Vec<String> {
    list.iter().map(|s| s.to_string()).collect()
}

#[test]
fn only_image_export_modes_wrap_code_blocks_by_default() {
    assert!(Mode::Render.wraps_code_blocks());
    assert!(Mode::Smoke.wraps_code_blocks());
    assert!(Mode::Pdf.wraps_code_blocks());
    assert!(!Mode::Window.wraps_code_blocks());
    assert!(!Mode::Bench.wraps_code_blocks());
}

#[test]
fn drawing_modes_shape_with_the_personal_download_directory() {
    for mode in [Mode::Window, Mode::Render, Mode::Smoke, Mode::Pdf] {
        assert!(mode.uses_personal_fonts());
    }
    for mode in [Mode::Bench, Mode::Latency, Mode::StylesheetList, Mode::Fonts] {
        assert!(!mode.uses_personal_fonts());
    }
}

#[test]
fn a_legacy_mode_flag_names_the_subcommand_that_replaced_it() {
    for (flag, sub) in [
        ("--render", "render"),
        ("--pdf", "pdf"),
        ("--bench", "bench"),
        ("--bench-latency", "latency"),
        ("--smoke-test", "smoke"),
    ] {
        let text = match legacy_hint(&strings(&[flag, "a.md"])) {
            None => panic!("{flag} is rejected"),
            Some(text) => text,
        };
        assert!(text.contains(sub), "{text}");
        assert!(text.contains("subcommand"), "{text}");
    }
}

#[test]
fn a_legacy_hint_names_the_first_old_flag_exactly() {
    assert_eq!(
        legacy_hint(&strings(&["a.md", "--pdf", "--render"])).as_deref(),
        Some("--pdf is a subcommand now: write `markview pdf FILE ...`; run `markview pdf --help`")
    );
    assert_eq!(legacy_hint(&strings(&["render", "a.md", "--output", "x.png"])), None);
    assert_eq!(legacy_hint(&[]), None);
}

#[test]
fn render_needs_a_document_and_an_output() {
    let render = checks(Mode::Render);
    assert_eq!(finish(&LaunchChecks { theme: true, ..render }, false), Ok(()));
    assert_eq!(
        finish(&LaunchChecks { output: false, ..render }, false),
        Err(LaunchError::RenderNeedsOutput),
        "an image needs somewhere to go"
    );
    assert_eq!(
        finish(&LaunchChecks { path: false, output: false, ..render }, false),
        Err(LaunchError::NeedsDocument),
        "an image needs a document"
    );
}

#[test]
fn pdf_takes_a_page_furniture_and_metadata() {
    assert_eq!(finish(&checks(Mode::Pdf), false), Ok(()));
    assert_eq!(authors(&strings(&["Ada", "Grace"])), ["Ada", "Grace"]);
    assert_eq!(keywords("markdown, typography"), ["markdown", "typography"]);
    assert!(is_language_tag("zh-CN"));
}

#[test]
fn the_page_flags_are_validated() {
    assert!(!is_language_tag("-x"));
    assert_eq!(
        finish(&LaunchChecks { output: false, ..checks(Mode::Pdf) }, false),
        Err(LaunchError::PdfNeedsOutput)
    );
    assert_eq!(
        finish(&LaunchChecks { theme: true, ..checks(Mode::Pdf) }, false),
        Err(LaunchError::PdfTheme)
    );
}

#[test]
fn watch_re_exports_a_pdf_but_never_over_its_own_document() {
    let watched = LaunchChecks { watch: true, ..checks(Mode::Pdf) };
    assert_eq!(finish(&watched, false), Ok(()));
    assert_eq!(finish(&watched, true), Err(LaunchError::WatchOverDocument));
    assert_eq!(
        finish(&LaunchChecks { watch: true, ..checks(Mode::Render) }, false),
        Err(LaunchError::WatchNotPdf)
    );
}

#[test]
fn bench_keeps_its_iterations_and_output() {
    assert_eq!(bench_iterations(7), 7);
    assert!(!Mode::Bench.wraps_code_blocks());
    assert_eq!(bench_iterations(3), 3);
    assert!(!Mode::Latency.wraps_code_blocks());
    assert_eq!(
        finish(&LaunchChecks { path: false, output: false, ..checks(Mode::Bench) }, false),
        Err(LaunchError::NeedsDocument),
        "a benchmark needs a document"
    );
}

#[test]
fn fonts_commands_name_their_selection() {
    assert_eq!(download_jobs(4), 4);
    assert_eq!(download_jobs(2), 2);
    assert_eq!(finish(&LaunchChecks { path: false, output: false, ..checks(Mode::Fonts) }, false), Ok(()));
}

#[test]
fn a_path_is_only_read_when_the_command_needs_one() {
    for mode in [Mode::StylesheetList, Mode::Fonts, Mode::Window, Mode::Serve] {
        assert_eq!(finish(&LaunchChecks { path: false, output: false, ..checks(mode) }, false), Ok(()));
    }
}

#[test]
fn the_counts_are_clamped() {
    assert_eq!(bench_iterations(0), 1);
    assert_eq!(bench_iterations(20_000), 10_000);
    assert_eq!(download_jobs(0), 1);
    assert_eq!(download_jobs(100), 64);
}

#[test]
fn a_style_and_a_theme_conflict_in_every_mode() {
    for mode in [Mode::Window, Mode::Render, Mode::Pdf, Mode::Fonts] {
        assert_eq!(
            finish(&LaunchChecks { style: true, theme: true, ..checks(mode) }, false),
            Err(LaunchError::StyleConflict)
        );
    }
    assert_eq!(LaunchError::StyleConflict.message(), "--style conflicts with --light and --dark");
    assert_eq!(
        LaunchError::WatchOverDocument.message(),
        "--watch cannot write the PDF over the document it watches"
    );
}

#[test]
fn keywords_and_authors_drop_blank_entries() {
    assert_eq!(keywords(""), Vec::<String>::new());
    assert_eq!(keywords(" , a ,,b\u{3000}, "), ["a", "b"]);
    assert_eq!(authors(&strings(&["  ", "Ada ", "\t"])), ["Ada "]);
}

#[test]
fn language_tags_follow_rfc_3066() {
    for good in ["en", "zh-CN", "ja", "x-klingon", "en-US-2"] {
        assert!(is_language_tag(good), "{good}");
    }
    for bad in ["", "-x", "en-", "en--US", "1en", "zh_CN", "中文"] {
        assert!(!is_language_tag(bad), "{bad}");
    }
    assert!(!is_language_tag(&"a".repeat(65)));
    assert!(is_language_tag(&"a".repeat(64)));
}

#[test]
fn cjk_type_is_parsed_case_insensitively() {
    for (name, expected) in [
        ("sc", CjkType::Sc),
        ("TC", CjkType::Tc),
        ("Jp", CjkType::Jp),
        ("none", CjkType::Plain),
    ] {
        assert_eq!(cjk_type_from_name(name), Some(expected), "{name}");
    }
    assert_eq!(cjk_type_from_name("klingon"), None);
    assert_eq!(cjk_type_from_name(""), None);
    assert_eq!(cjk_type_from_name("NONE"), Some(CjkType::Plain));
    assert_eq!(cjk_type_from_name("s c"), None);
}
