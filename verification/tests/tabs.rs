use markview::tabs::{Closed, Followed, SessionView, Tabs, RELEASE_AFTER};
use std::collections::HashMap;

/// A one-line text field with an undo history, as the export title keeps it.
#[derive(Default, Clone)]
struct TitleField {
    text: String,
    undo: Vec<String>,
}

impl TitleField {
    fn insert(&mut self, s: &str) {
        self.undo.push(self.text.clone());
        self.text.push_str(s);
    }
    fn undo(&mut self) {
        if let Some(previous) = self.undo.pop() {
            self.text = previous;
        }
    }
    fn text(&self) -> &str {
        &self.text
    }
}

/// What the reader keeps per session besides the tab record.
#[derive(Default)]
struct View {
    scroll: f32,
    animating: bool,
    horizontal: HashMap<(usize, usize), f32>,
    export_title: TitleField,
    cache: Option<Vec<u8>>,
}

impl View {
    fn animate_scroll_to(&mut self, _to: f32) {
        self.animating = true;
    }
    fn scroll_animating(&self) -> bool {
        self.animating
    }
}

impl SessionView for View {
    fn blank_view() -> Self {
        View::default()
    }
    fn settled(mut self) -> Self {
        self.cancel_scroll_animation();
        self
    }
    fn started(mut self) -> Self {
        self.start_document();
        self
    }
    fn released(mut self) -> Self {
        self.release_heavy();
        self
    }
    fn blank() -> Self {
        View::default()
    }
    fn cancel_scroll_animation(&mut self) {
        self.animating = false;
    }
    fn start_document(&mut self) {
        self.scroll = 0.0;
        self.horizontal.clear();
    }
    fn release_heavy(&mut self) {
        self.cache = None;
    }
}

type Reader = Tabs<String, u32, View>;

fn options() -> u32 {
    7
}

#[test]
fn title_and_undo_history_belong_to_document_sessions() {
    let mut readers: Reader = Tabs::new();
    let now = 1_000;
    readers.open("a.md".into(), now);
    readers.session.view.export_title.insert("A");
    readers.open("b.md".into(), now);
    assert_eq!(readers.session.view.export_title.text(), "");
    readers.session.view.export_title.insert("B");
    assert!(readers.select(0, now));
    readers.session.release_heavy();
    assert_eq!(readers.session.view.export_title.text(), "A");
    readers.session.view.export_title.undo();
    assert_eq!(readers.session.view.export_title.text(), "");
    assert!(readers.select(1, now));
    assert_eq!(readers.session.view.export_title.text(), "B");
}

#[test]
fn switching_restores_sessions_and_requests_remain_globally_ordered() {
    let mut tabs: Reader = Tabs::default();
    let now = 1_000;
    tabs.open("a.md".into(), now);
    let first = tabs.request(options(), true).unwrap();
    tabs.session.view.scroll = 123.0;
    tabs.open("b.md".into(), now);
    let second = tabs.request(options(), false).unwrap();
    assert!(second.version > first.version);
    assert!(tabs.select(0, now));
    assert_eq!(tabs.session.view.scroll, 123.0);
    assert!(tabs.session.follow_update);
    let third = tabs.request(options(), false).unwrap();
    assert!(third.version > second.version);
    assert_eq!(third.content_version, first.content_version);
}

#[test]
fn lifting_the_image_cap_is_per_tab_and_per_revision() {
    let mut tabs: Reader = Tabs::default();
    let now = 1_000;
    tabs.open("a.md".into(), now);
    assert!(!tabs.request(options(), false).unwrap().load_all_images);
    // The reader lifts the cap while reading `a.md`.
    tabs.session.load_all_images = true;
    assert!(tabs.request(options(), false).unwrap().load_all_images);
    // A newly opened document starts capped, whatever `a.md` asked for.
    tabs.open("b.md".into(), now);
    assert!(!tabs.request(options(), false).unwrap().load_all_images);
    // Switching back keeps each tab's own answer.
    assert!(tabs.select(0, now));
    assert!(tabs.request(options(), false).unwrap().load_all_images);
    // New content in `a.md` asks again.
    tabs.session.content_version += 1;
    tabs.session.load_all_images = false;
    assert!(!tabs.request(options(), false).unwrap().load_all_images);
}

#[test]
fn closing_tabs_preserves_active_state_and_releases_only_inactive_documents() {
    let mut tabs: Reader = Tabs::default();
    let now = 1_000;
    tabs.open("a.md".into(), now);
    tabs.session.document = Some("a".to_string());
    tabs.open("b.md".into(), now);
    tabs.session.document = Some("b".to_string());
    tabs.release_inactive(now + 21_000);
    assert!(tabs.entries()[0].session.document.is_none());
    assert!(tabs.session.document.is_some());
    assert!(matches!(tabs.close(0, now), Closed::Inactive));
    assert_eq!(tabs.active(), 0);
    assert_eq!(tabs.session.path.as_deref(), Some("b.md"));
    assert!(matches!(tabs.close(0, now), Closed::Active));
    assert!(tabs.session.path.is_none());
    assert!(tabs.request(options(), false).is_none());
}

#[test]
fn closing_active_tab_restores_neighbor_and_invalid_indices_preserve_state() {
    let mut tabs: Reader = Tabs::default();
    let now = 1_000;
    for (name, scroll) in [("a.md", 10.0), ("b.md", 20.0), ("c.md", 30.0)] {
        tabs.open(name.into(), now);
        tabs.session.view.scroll = scroll;
    }
    assert!(tabs.select(1, now));
    assert!(matches!(tabs.close(1, now), Closed::Active));
    assert_eq!(tabs.session.path.as_deref(), Some("c.md"));
    assert_eq!(tabs.session.view.scroll, 30.0);
    assert!(tabs.select(0, now));
    assert_eq!(tabs.session.view.scroll, 10.0);
    assert!(!tabs.select(9, now));
    assert!(matches!(tabs.close(9, now), Closed::Missing));
}

#[test]
fn reordering_preserves_every_session_and_the_active_request() {
    for active in 0..4 {
        for from in 0..4 {
            for to in 0..4 {
                let mut tabs: Reader = Tabs::default();
                let now = 1_000;
                for i in 0..4 {
                    tabs.open(format!("{i}.md"), now);
                    tabs.session.view.scroll = 10.0 * i as f32;
                }
                tabs.select(active, now);
                let request = tabs.request(options(), false).unwrap();
                assert_eq!(tabs.move_tab(from, to), from != to);
                let mut order = vec![0, 1, 2, 3];
                let moved = order.remove(from);
                order.insert(to, moved);
                assert_eq!(tabs.active(), order.iter().position(|i| *i == active).unwrap());
                assert_eq!(tabs.session.version, request.version);
                assert_eq!(tabs.session.path.clone(), Some(request.path.clone()));
                assert!(!tabs.move_tab(4, 0));
                assert!(!tabs.move_tab(0, 4));
                for (index, id) in order.into_iter().enumerate() {
                    tabs.select(index, now);
                    assert_eq!(tabs.session.path.clone(), Some(format!("{id}.md")));
                    assert_eq!(tabs.session.view.scroll, id as f32 * 10.0);
                }
            }
        }
    }
}

#[test]
fn background_open_preserves_active_reading_and_deduplicates_tabs() {
    let mut tabs: Reader = Tabs::default();
    let now = 1_000;
    tabs.open("a.md".into(), now);
    tabs.session.document = Some("current".to_string());
    tabs.session.view.scroll = 123.0;
    tabs.session.view.horizontal.insert((0, 0), 42.0);
    let request = tabs.request(options(), true).unwrap();
    assert!(tabs.open_background("b.md".into(), Some("intro".into()), now));
    assert!(tabs.open_background("c.md".into(), None, now));
    assert!(!tabs.open_background("b.md".into(), None, now));
    assert!(!tabs.open_background("a.md".into(), None, now));
    assert_eq!(tabs.entries().len(), 3);
    assert_eq!(tabs.active(), 0);
    assert_eq!(tabs.session.path.as_deref(), Some("a.md"));
    assert_eq!(tabs.session.version, request.version);
    assert_eq!(tabs.session.view.scroll, 123.0);
    assert_eq!(tabs.session.view.horizontal[&(0, 0)], 42.0);
    assert!(tabs.session.follow_update);
    assert_eq!(tabs.session.document.as_deref(), Some("current"));
    assert!(tabs.select(1, now));
    assert_eq!(tabs.session.path.as_deref(), Some("b.md"));
    assert!(tabs.session.document.is_none());
    assert_eq!(tabs.session.pending_anchor.as_deref(), Some("intro"));
    let next = tabs.request(options(), false).unwrap();
    assert_eq!(next.version, request.version + 1);
    assert_eq!(next.path, "b.md");
    assert!(tabs.select(0, now));
    assert_eq!(tabs.session.view.scroll, 123.0);
}

#[test]
fn background_tabs_can_be_reordered_closed_or_activated_by_closing_current() {
    let mut tabs: Reader = Tabs::default();
    let now = 1_000;
    tabs.open("a.md".into(), now);
    assert!(tabs.open_background("b.md".into(), None, now));
    assert!(tabs.open_background("c.md".into(), None, now));
    assert!(tabs.move_tab(2, 1));
    assert!(matches!(tabs.close(2, now), Closed::Inactive));
    assert_eq!(tabs.session.path.as_deref(), Some("a.md"));
    assert!(matches!(tabs.close(0, now), Closed::Active));
    assert_eq!(tabs.session.path.as_deref(), Some("c.md"));
    assert!(tabs.session.document.is_none());
    assert_eq!(tabs.request(options(), false).unwrap().path, "c.md");
}

#[test]
fn switching_or_closing_a_tab_ends_its_scroll_animation() {
    let mut tabs: Reader = Tabs::default();
    let now = 1_000;
    tabs.open("a.md".into(), now);
    tabs.session.view.animate_scroll_to(500.0);
    assert!(tabs.session.view.scroll_animating());
    // Opening another document leaves the first one's animation behind.
    tabs.open("b.md".into(), now);
    assert!(!tabs.session.view.scroll_animating());
    tabs.session.view.animate_scroll_to(500.0);
    assert!(tabs.select(0, now));
    assert!(!tabs.session.view.scroll_animating());
    // Closing the active tab swaps in a session with nothing in flight.
    tabs.session.view.animate_scroll_to(500.0);
    tabs.close(0, now);
    assert!(!tabs.session.view.scroll_animating());
}

#[test]
fn a_background_tab_is_released_only_after_the_delay() {
    let mut tabs: Reader = Tabs::default();
    tabs.open("a.md".into(), 1_000);
    tabs.session.document = Some("a".to_string());
    tabs.open("b.md".into(), 2_000);
    assert_eq!(tabs.release_deadline(), Some(2_000 + RELEASE_AFTER));
    tabs.release_inactive(2_000 + RELEASE_AFTER - 1);
    assert!(tabs.entries()[0].session.document.is_some());
    tabs.release_inactive(2_000 + RELEASE_AFTER);
    assert!(tabs.entries()[0].session.document.is_none());
    assert_eq!(tabs.release_deadline(), None);
}

#[test]
fn finding_and_queueing_an_anchor_address_the_named_tab() {
    let mut tabs: Reader = Tabs::default();
    tabs.open("a.md".into(), 1_000);
    assert!(tabs.open_background("b.md".into(), None, 1_000));
    assert_eq!(tabs.find("b.md"), Some(1));
    assert_eq!(tabs.find("z.md"), None);
    tabs.queue_anchor(1, Some("usage".into()));
    assert!(tabs.select(1, 1_000));
    assert_eq!(tabs.session.pending_anchor.as_deref(), Some("usage"));
}

#[test]
fn a_link_followed_in_the_background_reuses_or_queues_a_tab() {
    let mut tabs: Reader = Tabs::default();
    assert_eq!(tabs.follow_in_background("b.md".into(), None, 1_000), Followed::Nothing);
    tabs.open("a.md".into(), 1_000);
    assert_eq!(tabs.follow_in_background("b.md".into(), Some("x".into()), 1_000), Followed::Opened);
    assert_eq!(tabs.entries().len(), 2);
    assert_eq!(tabs.session.path.as_deref(), Some("a.md"));
    assert_eq!(tabs.follow_in_background("b.md".into(), Some("y".into()), 1_000), Followed::Queued(1));
    assert_eq!(tabs.entries()[1].session.pending_anchor.as_deref(), Some("y"));
    // The shown document takes its anchor at once.
    assert_eq!(tabs.follow_in_background("a.md".into(), Some("top".into()), 1_000), Followed::Queued(0));
    assert_eq!(tabs.session.pending_anchor.as_deref(), Some("top"));
    assert_eq!(tabs.entries().len(), 2);
}

#[test]
fn a_change_to_the_shown_file_asks_again_and_stale_layouts_are_dropped() {
    let mut tabs: Reader = Tabs::default();
    tabs.open("a.md".into(), 1_000);
    tabs.session.load_all_images = true;
    tabs.session.remote_notice_dismissed = true;
    tabs.session.view.animate_scroll_to(300.0);
    let request = tabs.request(options(), false).unwrap();
    assert!(tabs.is_current(request.version, "a.md"));
    assert!(!tabs.is_current(request.version, "b.md"));
    assert!(!tabs.file_changed("b.md"));
    assert_eq!(tabs.session.content_version, 1);
    assert!(tabs.file_changed("a.md"));
    assert_eq!(tabs.session.content_version, 2);
    assert!(!tabs.session.load_all_images);
    assert!(!tabs.session.remote_notice_dismissed);
    assert!(!tabs.session.view.scroll_animating());
    let again = tabs.request(options(), true).unwrap();
    assert!(!tabs.is_current(request.version, "a.md"));
    assert!(tabs.is_current(again.version, "a.md"));
}
