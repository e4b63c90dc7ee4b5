use markview::styles::{
    edit_styles, position, row_controls, style_order, toggle_label, Entry, RowControls,
    StyleCommand, StyleEdit, StylesTarget,
};

fn entry(id: &str, broken: bool) -> Entry {
    Entry {
        id: id.into(),
        name: id.to_uppercase(),
        error: if broken { Some("cannot parse".into()) } else { None },
    }
}

fn ids(list: &[&str]) -> Vec<String> {
    list.iter().map(|s| s.to_string()).collect()
}

#[test]
fn enabled_styles_come_first_in_priority_order() {
    let entries = vec![entry("light", false), entry("dark", false), entry("paper", false), entry("sepia", false)];
    let selected = ids(&["paper", "light"]);
    assert_eq!(style_order(Some(&selected), &entries), vec![2, 0, 1, 3]);
    // Following the system appearance lists the catalogue as it is.
    assert_eq!(style_order(None, &entries), vec![0, 1, 2, 3]);
    assert_eq!(position(Some(&selected), &entries[2]), Some(0));
    assert_eq!(position(Some(&selected), &entries[0]), Some(1));
    assert_eq!(position(Some(&selected), &entries[1]), None);
    assert_eq!(position(None, &entries[0]), None);
}

#[test]
fn stylesheet_controls_fit_and_cannot_enable_invalid_entries() {
    let broken = entry("broken", true);
    let selected = ids(&["light"]);
    assert_eq!(
        row_controls(Some(&selected), &broken),
        RowControls { toggle: None, up: false, down: false }
    );
    assert_eq!(edit_styles(Some(selected.clone()), &broken, StyleEdit::Toggle), None);
    // A broken sheet that is already enabled can still be disabled.
    let enabled = ids(&["broken", "light"]);
    assert_eq!(
        row_controls(Some(&enabled), &broken),
        RowControls { toggle: Some(true), up: false, down: true }
    );
    assert_eq!(edit_styles(Some(enabled), &broken, StyleEdit::Toggle), Some(ids(&["light"])));
    assert_eq!(toggle_label(true), "Disable");
    assert_eq!(toggle_label(false), "Enable");
}

#[test]
fn priority_rows_center_controls_and_hide_boundary_arrows() {
    let selected = ids(&["a", "b", "c"]);
    let first = row_controls(Some(&selected), &entry("a", false));
    let middle = row_controls(Some(&selected), &entry("b", false));
    let last = row_controls(Some(&selected), &entry("c", false));
    let off = row_controls(Some(&selected), &entry("d", false));
    assert_eq!((first.up, first.down), (false, true));
    assert_eq!((middle.up, middle.down), (true, true));
    assert_eq!((last.up, last.down), (true, false));
    assert_eq!(off, RowControls { toggle: Some(false), up: false, down: false });
}

#[test]
fn enabling_moving_and_disabling_edit_the_priority_list() {
    let e = entry("paper", false);
    assert_eq!(edit_styles(None, &e, StyleEdit::Toggle), Some(ids(&["paper"])));
    let list = ids(&["light", "paper", "dark"]);
    assert_eq!(edit_styles(Some(list.clone()), &e, StyleEdit::Up), Some(ids(&["paper", "light", "dark"])));
    assert_eq!(edit_styles(Some(list.clone()), &e, StyleEdit::Down), Some(ids(&["light", "dark", "paper"])));
    assert_eq!(edit_styles(Some(ids(&["paper", "x"])), &e, StyleEdit::Up), Some(ids(&["paper", "x"])));
    assert_eq!(edit_styles(Some(ids(&["x", "paper"])), &e, StyleEdit::Down), Some(ids(&["x", "paper"])));
    assert_eq!(edit_styles(Some(ids(&["paper", "x", "paper"])), &e, StyleEdit::Toggle), Some(ids(&["x"])));
    // Enabling then disabling gives the list back, and so does up then down.
    let on = edit_styles(Some(ids(&["light"])), &e, StyleEdit::Toggle).unwrap();
    assert_eq!(on, ids(&["paper", "light"]));
    assert_eq!(edit_styles(Some(on), &e, StyleEdit::Toggle), Some(ids(&["light"])));
    let up = edit_styles(Some(list.clone()), &e, StyleEdit::Up).unwrap();
    assert_eq!(edit_styles(Some(up), &e, StyleEdit::Down), Some(list));
}

#[test]
fn each_page_routes_its_controls_to_its_own_list() {
    assert_eq!(StylesTarget::Reader.toggle(2), StyleCommand::StyleToggle(2));
    assert_eq!(StylesTarget::Export.toggle(2), StyleCommand::ExportStyleToggle(2));
    assert_eq!(StylesTarget::Reader.up(1), StyleCommand::StyleUp(1));
    assert_eq!(StylesTarget::Export.down(1), StyleCommand::ExportStyleDown(1));
    assert_eq!(StylesTarget::Reader.back(), StyleCommand::Styles);
    assert_eq!(StylesTarget::Export.back(), StyleCommand::ExportStyles);
    assert_eq!(StylesTarget::Reader.system(), Some(StyleCommand::SystemTheme));
    assert_eq!(StylesTarget::Export.system(), None);
    assert_eq!(
        StylesTarget::Reader.summary(None),
        "Following system appearance · enable a style to customize"
    );
    assert_eq!(
        StylesTarget::Reader.summary(Some(&ids(&["dark"]))),
        "Enabled styles come first · higher rows take priority"
    );
    assert_eq!(
        StylesTarget::Export.summary(None),
        "Enabled styles come first · higher rows take priority"
    );
}
