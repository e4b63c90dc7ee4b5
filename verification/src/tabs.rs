//! Tab ownership and request identity, independent of windows and file
//! watchers.
//!
//! The active tab's session lives outside the list, in `Tabs::session`; the
//! list keeps every tab in strip order, and an inactive tab keeps its own
//! session until it is shown again. Times are milliseconds on the reader's own
//! clock.
use vstd::prelude::*;
use crate::text::str_equal;

verus! {

/// How long an inactive tab keeps its heavy state after it was last shown.
pub const RELEASE_AFTER: u64 = 20_000;

/// The largest clock reading the tabs accept; far beyond any running reader.
pub const TIME_LIMIT: u64 = 0x4000_0000_0000_0000;

/// What a session shows of its document besides what the tab logic reads:
/// scroll offsets, animations, caches, the export title. The tab logic only
/// starts, settles, parks and clears it; each of these is a function of the
/// view it acts on, named here so that contracts can follow a view through
/// the strip.
pub trait SessionView: Sized {
    /// The view of a session that has shown nothing yet.
    spec fn blank_view() -> Self;

    /// This view with no scroll easing in flight.
    spec fn settled(self) -> Self;

    /// This view at the top of a document that was just opened.
    spec fn started(self) -> Self;

    /// This view without what a hidden tab can rebuild.
    spec fn released(self) -> Self;

    /// The view of a session that has shown nothing yet.
    fn blank() -> (v: Self)
        ensures
            v == Self::blank_view(),
    ;

    /// Ends whatever scroll easing is in flight.
    fn cancel_scroll_animation(&mut self)
        ensures
            *final(self) == old(self).settled(),
    ;

    /// Returns to the top of a document that was just opened: no scroll, no
    /// jump origin, no sideways offsets.
    fn start_document(&mut self)
        ensures
            *final(self) == old(self).started(),
    ;

    /// Drops what a hidden tab can rebuild when it is shown again.
    fn release_heavy(&mut self)
        ensures
            *final(self) == old(self).released(),
    ;
}

/// One document's reading state. `D` is the parsed document, `O` the layout
/// options of the last request, `V` what the view keeps.
pub struct Session<D, O, V> {
    pub path: Option<String>,
    /// Bumped whenever the text behind `path` is new.
    pub content_version: u64,
    /// The request the session last made.
    pub version: u64,
    pub follow_update: bool,
    pub load_all_images: bool,
    pub remote_notice_dismissed: bool,
    /// A heading to move to once it is laid out.
    pub pending_anchor: Option<String>,
    pub layout_pending: bool,
    pub requested_options: Option<O>,
    pub document: Option<D>,
    pub view: V,
}

pub open spec fn opt_view(s: Option<String>) -> Option<Seq<char>> {
    match s {
        Some(s) => Some(s@),
        None => None,
    }
}

impl<D, O, V: SessionView> Session<D, O, V> {
    /// A session that has shown nothing.
    pub fn blank() -> (s: Self)
        ensures
            s.is_blank(),
            s == Self::empty(),
    {
        Session {
            path: None,
            content_version: 0,
            version: 0,
            follow_update: false,
            load_all_images: false,
            remote_notice_dismissed: false,
            pending_anchor: None,
            layout_pending: false,
            requested_options: None,
            document: None,
            view: V::blank(),
        }
    }

    /// The session `blank` makes.
    pub open spec fn empty() -> Self {
        Session {
            path: None,
            content_version: 0,
            version: 0,
            follow_update: false,
            load_all_images: false,
            remote_notice_dismissed: false,
            pending_anchor: None,
            layout_pending: false,
            requested_options: None,
            document: None,
            view: V::blank_view(),
        }
    }

    /// This session with no scroll easing in flight.
    pub open spec fn settle(self) -> Self {
        Session { view: self.view.settled(), ..self }
    }

    /// Everything but the view is as a blank session has it.
    pub open spec fn is_blank(self) -> bool {
        &&& self.path is None
        &&& self.content_version == 0
        &&& self.version == 0
        &&& !self.follow_update
        &&& !self.load_all_images
        &&& !self.remote_notice_dismissed
        &&& self.pending_anchor is None
        &&& !self.layout_pending
        &&& self.requested_options is None
        &&& self.document is None
    }

    /// Drops the document and whatever else a hidden tab can rebuild.
    pub fn release_heavy(&mut self)
        ensures
            *final(self) == (Session { document: None, view: old(self).view.released(), ..*old(self) }),
    {
        self.document = None;
        self.view.release_heavy();
    }
}

/// One tab of the strip: the file it reads, the session it keeps while it is
/// not shown, and when it was last shown.
pub struct Tab<D, O, V> {
    pub path: String,
    pub session: Session<D, O, V>,
    pub last_active: u64,
}

/// What closing a tab did.
#[derive(Clone, Copy, Debug, PartialEq, Eq, Structural)]
pub enum Closed {
    /// No tab has that index.
    Missing,
    /// A background tab went away; the reader did not move.
    Inactive,
    /// The shown tab went away; a neighbour, or nothing, is shown now.
    Active,
}

/// What following a link into a background tab did.
#[derive(Clone, Copy, Debug, PartialEq, Eq, Structural)]
pub enum Followed {
    /// The file already had this tab; its anchor is queued there. When it is
    /// the shown tab the anchor is due at once.
    Queued(usize),
    /// A new background tab reads the file.
    Opened,
    /// Nothing is shown, so nothing was opened.
    Nothing,
}

/// A layout request for the shown document.
pub struct Request {
    pub version: u64,
    pub content_version: u64,
    pub path: String,
    pub load_all_images: bool,
}

/// The tab strip and the shown session.
pub struct Tabs<D, O, V> {
    pub session: Session<D, O, V>,
    entries: Vec<Tab<D, O, V>>,
    active: usize,
    request_serial: u64,
}

impl<D, O, V: SessionView> Default for Tabs<D, O, V> {
    /// An empty strip showing nothing.
    fn default() -> (t: Self)
        ensures
            t.wf(),
            t.tabs().len() == 0,
            t.shown() == Session::<D, O, V>::empty(),
            t.serial() == 0,
    {
        Tabs::new()
    }
}

/// Where the tab at `a` ends up when the tab at `from` moves to `to`.
pub open spec fn moved_index(a: int, from: int, to: int) -> int {
    if a == from {
        to
    } else if from < a && to >= a {
        a - 1
    } else if from > a && to <= a {
        a + 1
    } else {
        a
    }
}

/// The list after the entry at `from` is taken out and put back at `to`.
pub open spec fn moved<T>(s: Seq<T>, from: int, to: int) -> Seq<T> {
    s.remove(from).insert(to, s[from])
}

impl<D, O, V: SessionView> Tabs<D, O, V> {
    /// `new` is `old` after `move_tab(from, to)` answered `r`.
    pub open spec fn reordered(old: Self, new: Self, from: usize, to: usize, r: bool) -> bool {
        &&& r == (from < old.tabs().len() && to < old.tabs().len() && from != to)
        &&& r ==> new.tabs() == moved(old.tabs(), from as int, to as int)
        &&& r ==> new.active_index() == moved_index(old.active_index(), from as int, to as int)
        &&& !r ==> new.tabs() == old.tabs() && new.active_index() == old.active_index()
    }

    /// `new` is `old` after `select(index, now)` answered `r`.
    pub open spec fn switched(old: Self, new: Self, index: usize, now: u64, r: bool) -> bool {
        &&& r == (index < old.tabs().len() && index != old.active_index())
        &&& !r ==> new.tabs() == old.tabs() && new.shown() == old.shown() && new.active_index()
            == old.active_index()
        &&& r ==> {
            let a = old.active_index();
            &&& new.active_index() == index
            &&& new.tabs().len() == old.tabs().len()
            &&& new.tabs()[a].path == old.tabs()[a].path
            &&& new.tabs()[a].last_active == now
            &&& new.tabs()[a].session == old.shown().settle()
            &&& new.tabs()[index as int].path == old.tabs()[index as int].path
            &&& new.tabs()[index as int].last_active == now
            &&& new.tabs()[index as int].session == Session::<D, O, V>::empty()
            &&& new.shown() == old.tabs()[index as int].session.settle()
            &&& forall|i: int|
                0 <= i < new.tabs().len() && i != a && i != index ==> #[trigger] new.tabs()[i]
                    == old.tabs()[i]
        }
    }

    /// `new` is `old` after `open_background(path, anchor, now)` answered `r`.
    pub open spec fn queued(
        old: Self,
        new: Self,
        path: Seq<char>,
        anchor: Option<String>,
        now: u64,
        r: bool,
    ) -> bool {
        &&& r == (old.shown().path is Some && !old.paths().contains(path))
        &&& r ==> {
            let t = new.tabs().last();
            &&& new.tabs().drop_last() == old.tabs()
            &&& new.tabs().len() == old.tabs().len() + 1
            &&& t.path@ == path
            &&& t.last_active == now
            &&& opt_view(t.session.path) == Some(path)
            &&& t.session.content_version == 1
            &&& t.session.pending_anchor == anchor
            &&& t.session.version == 0
            &&& !t.session.load_all_images
            &&& !t.session.remote_notice_dismissed
            &&& !t.session.follow_update
            &&& !t.session.layout_pending
            &&& t.session.document is None
            &&& t.session.requested_options is None
        }
        &&& !r ==> new.tabs() == old.tabs()
        &&& new.active_index() == old.active_index()
        &&& new.shown() == old.shown()
        &&& new.serial() == old.serial()
    }

    /// `new` is `old` after `request(options, follow)` answered `r`.
    pub open spec fn issued(old: Self, new: Self, options: O, follow: bool, r: Option<Request>) -> bool {
        &&& new.tabs() == old.tabs()
        &&& new.active_index() == old.active_index()
        &&& r is None <==> old.shown().path is None
        &&& r is None ==> new.shown() == old.shown() && new.serial() == old.serial()
        &&& r matches Some(q) ==> {
            let (s, o) = (new.shown(), old.shown());
            &&& q.version == old.serial() + 1
            &&& new.serial() == q.version
            &&& q.content_version == o.content_version
            &&& opt_view(o.path) == Some(q.path@)
            &&& q.load_all_images == o.load_all_images
            &&& s == Session {
                version: q.version,
                follow_update: o.follow_update || follow,
                requested_options: Some(options),
                layout_pending: true,
                ..o
            }
        }
    }

    pub closed spec fn tabs(self) -> Seq<Tab<D, O, V>> {
        self.entries@
    }

    pub closed spec fn active_index(self) -> int {
        self.active as int
    }

    /// The shown session.
    pub closed spec fn shown(self) -> Session<D, O, V> {
        self.session
    }

    pub closed spec fn serial(self) -> u64 {
        self.request_serial
    }

    /// The files of the strip, in order.
    pub open spec fn paths(self) -> Seq<Seq<char>> {
        self.tabs().map_values(|t: Tab<D, O, V>| t.path@)
    }

    /// The strip and the shown session agree.
    ///
    /// With no tab nothing is shown; otherwise the shown session reads the
    /// active tab's file, and every other tab keeps a session of its own file.
    /// No session holds a request newer than the last one issued, and every
    /// clock reading is in range.
    pub closed spec fn wf(self) -> bool {
        &&& self.tabs().len() == 0 ==> self.active_index() == 0 && self.session.path is None
        &&& self.tabs().len() > 0 ==> {
            &&& 0 <= self.active_index() < self.tabs().len()
            &&& opt_view(self.session.path) == Some(self.tabs()[self.active_index()].path@)
        }
        &&& forall|i: int|
            0 <= i < self.tabs().len() && i != self.active_index() ==> opt_view(
                #[trigger] self.tabs()[i].session.path,
            ) == Some(self.tabs()[i].path@)
        &&& forall|i: int|
            0 <= i < self.tabs().len() ==> #[trigger] self.tabs()[i].last_active <= TIME_LIMIT
        &&& self.session.version <= self.serial()
        &&& forall|i: int|
            0 <= i < self.tabs().len() ==> #[trigger] self.tabs()[i].session.version
                <= self.serial()
    }

    /// An empty strip showing nothing.
    pub fn new() -> (t: Self)
        ensures
            t.wf(),
            t.tabs().len() == 0,
            t.shown() == Session::<D, O, V>::empty(),
            t.serial() == 0,
    {
        Tabs { session: Session::blank(), entries: Vec::new(), active: 0, request_serial: 0 }
    }

    pub fn entries(&self) -> (r: &[Tab<D, O, V>])
        ensures
            r@ == self.tabs(),
    {
        self.entries.as_slice()
    }

    pub fn active(&self) -> (r: usize)
        ensures
            r == self.active_index(),
    {
        self.active
    }

    /// Swaps `tab` with the tab at `i`.
    fn swap_tab(&mut self, i: usize, tab: &mut Tab<D, O, V>)
        requires
            i < old(self).tabs().len(),
        ensures
            final(self).tabs() == old(self).tabs().update(i as int, *old(tab)),
            *final(tab) == old(self).tabs()[i as int],
            final(self).session == old(self).session,
            final(self).active == old(self).active,
            final(self).request_serial == old(self).request_serial,
    {
        self.entries.set_and_swap(i, tab);
    }

    /// Parks the shown session in the active tab, leaving a blank one shown.
    fn park_session(&mut self, now: u64)
        requires
            old(self).active < old(self).tabs().len(),
        ensures
            final(self).tabs() == old(self).tabs().update(
                old(self).active as int,
                Tab {
                    path: old(self).tabs()[old(self).active as int].path,
                    session: old(self).session,
                    last_active: now,
                },
            ),
            final(self).session == Session::<D, O, V>::empty(),
            final(self).active == old(self).active,
            final(self).request_serial == old(self).request_serial,
    {
        let i = self.active;
        let mut tab = Tab { path: String::new(), session: Session::blank(), last_active: 0 };
        self.swap_tab(i, &mut tab);
        let mut session = Session::blank();
        std::mem::swap(&mut session, &mut self.session);
        tab.session = session;
        tab.last_active = now;
        self.swap_tab(i, &mut tab);
    }

    /// Takes the session parked in the tab at `i` out to be shown, leaving a
    /// blank one in its place.
    fn unpark_session(&mut self, i: usize, now: u64)
        requires
            i < old(self).tabs().len(),
        ensures
            final(self).tabs() == old(self).tabs().update(
                i as int,
                Tab {
                    path: old(self).tabs()[i as int].path,
                    session: final(self).tabs()[i as int].session,
                    last_active: now,
                },
            ),
            final(self).tabs()[i as int].session == Session::<D, O, V>::empty(),
            final(self).session == old(self).tabs()[i as int].session,
            final(self).active == old(self).active,
            final(self).request_serial == old(self).request_serial,
    {
        let mut tab = Tab { path: String::new(), session: Session::blank(), last_active: 0 };
        self.swap_tab(i, &mut tab);
        let mut session = Session::blank();
        std::mem::swap(&mut session, &mut tab.session);
        self.session = session;
        tab.last_active = now;
        self.swap_tab(i, &mut tab);
    }

    /// Reorders the strip without replacing the shown session or issuing a
    /// request. The tab that was shown stays shown wherever it lands.
    pub fn move_tab(&mut self, from: usize, to: usize) -> (r: bool)
        requires
            old(self).wf(),
        ensures
            final(self).wf(),
            Self::reordered(*old(self), *final(self), from, to, r),
            final(self).shown() == old(self).shown(),
            final(self).serial() == old(self).serial(),
    {
        if from >= self.entries.len() || to >= self.entries.len() || from == to {
            return false;
        }
        let ghost before = self.entries@;
        let ghost a = self.active as int;
        let tab = self.entries.remove(from);
        self.entries.insert(to, tab);
        if self.active == from {
            self.active = to;
        } else if from < self.active && to >= self.active {
            self.active = self.active - 1;
        } else if from > self.active && to <= self.active {
            self.active = self.active + 1;
        }
        proof {
            lemma_moved_index(before, from as int, to as int, a);
            assert forall|i: int| 0 <= i < self.entries@.len() implies (
            #[trigger] self.entries@[i]) == before[moved_source(i, from as int, to as int)] by {
                lemma_moved_source(before, from as int, to as int, i);
            }
            assert forall|i: int|
                0 <= i < self.entries@.len() && i != self.active as int implies opt_view(
                #[trigger] self.entries@[i].session.path,
            ) == Some(self.entries@[i].path@) by {
                lemma_moved_source(before, from as int, to as int, i);
                lemma_moved_source_inverse(from as int, to as int, a, i, before.len() as int);
            }
            assert forall|i: int| 0 <= i < self.entries@.len() implies #[trigger] self.entries@[i].last_active
                <= TIME_LIMIT by {
                lemma_moved_source(before, from as int, to as int, i);
            }
            assert forall|i: int| 0 <= i < self.entries@.len() implies #[trigger] self.entries@[i].session.version
                <= self.request_serial by {
                lemma_moved_source(before, from as int, to as int, i);
            }
        }
        true
    }

    /// The first tab reading `path`.
    pub fn find(&self, path: &str) -> (r: Option<usize>)
        ensures
            match r {
                Some(i) => i < self.tabs().len() && self.paths()[i as int] == path@ && forall|
                    j: int,
                | 0 <= j < i ==> self.paths()[j] != path@,
                None => forall|j: int| 0 <= j < self.tabs().len() ==> self.paths()[j] != path@,
            },
    {
        let mut i: usize = 0;
        while i < self.entries.len()
            invariant
                i <= self.entries.len(),
                forall|j: int| 0 <= j < i ==> self.paths()[j] != path@,
            decreases self.entries.len() - i,
        {
            if str_equal(self.entries[i].path.as_str(), path) {
                return Some(i);
            }
            i = i + 1;
        }
        None
    }

    /// Shows `path` in a new tab at the end of the strip.
    ///
    /// The session that was shown is parked in its tab, marked as shown at
    /// `now`; the new document starts at the top, with a fresh content version
    /// and its images capped again.
    pub fn open(&mut self, path: String, now: u64)
        requires
            old(self).wf(),
            now <= TIME_LIMIT,
            old(self).shown().content_version < u64::MAX,
        ensures
            final(self).wf(),
            final(self).tabs().len() == old(self).tabs().len() + 1,
            final(self).paths() == old(self).paths().push(path@),
            final(self).active_index() == old(self).tabs().len(),
            final(self).tabs()[final(self).active_index()].last_active == now,
            final(self).tabs()[final(self).active_index()].session == Session::<D, O, V>::empty(),
            old(self).tabs().len() > 0 ==> {
                let a = old(self).active_index();
                &&& final(self).tabs()[a].session == old(self).shown().settle()
                &&& final(self).tabs()[a].last_active == now
            },
            forall|i: int|
                0 <= i < old(self).tabs().len() && i != old(self).active_index() ==> #[trigger] final(self).tabs()[i] == old(self).tabs()[i],
            old(self).tabs().len() > 0 ==> final(self).shown() == (Session {
                path: Some(path),
                content_version: 1,
                view: V::blank_view().started(),
                ..Session::<D, O, V>::empty()
            }),
            old(self).tabs().len() == 0 ==> final(self).shown() == (Session {
                path: Some(path),
                content_version: (old(self).shown().content_version + 1) as u64,
                load_all_images: false,
                remote_notice_dismissed: false,
                pending_anchor: None,
                view: old(self).shown().view.settled().started(),
                ..old(self).shown()
            }),
            final(self).serial() == old(self).serial(),
    {
        self.session.view.cancel_scroll_animation();
        let ghost before = self.entries@;
        if self.session.path.is_some() {
            // The strip holds the shown file whenever something is shown.
            self.park_session(now);
            let tab = Tab { path: path.clone(), session: Session::blank(), last_active: now };
            self.entries.push(tab);
            self.active = self.entries.len() - 1;
        } else {
            let tab = Tab { path: path.clone(), session: Session::blank(), last_active: now };
            self.entries.push(tab);
            self.active = 0;
        }
        proof {
            assert(self.paths() =~= old(self).paths().push(path@));
        }
        self.session.path = Some(path);
        self.session.content_version = self.session.content_version + 1;
        // A different document starts capped again.
        self.session.load_all_images = false;
        self.session.remote_notice_dismissed = false;
        self.session.pending_anchor = None;
        self.session.view.start_document();
    }

    /// Queues a tab for first use without disturbing the shown reader: nothing
    /// is shown, or the file already has a tab, and nothing happens.
    pub fn open_background(&mut self, path: String, anchor: Option<String>, now: u64) -> (r:
        bool)
        requires
            old(self).wf(),
            now <= TIME_LIMIT,
        ensures
            final(self).wf(),
            Self::queued(*old(self), *final(self), path@, anchor, now, r),
            final(self).active_index() == old(self).active_index(),
            final(self).shown() == old(self).shown(),
            final(self).serial() == old(self).serial(),
    {
        if self.session.path.is_none() {
            return false;
        }
        if let Some(i) = self.find(path.as_str()) {
            proof {
                assert(self.paths()[i as int] == path@);
            }
            return false;
        }
        proof {
            assert forall|j: int| 0 <= j < self.paths().len() implies self.paths()[j] != path@ by {}
        }
        let mut session = Session::blank();
        session.path = Some(path.clone());
        session.content_version = 1;
        session.pending_anchor = anchor;
        let tab = Tab { path, session, last_active: now };
        self.entries.push(tab);
        proof {
            assert(self.entries@.drop_last() =~= old(self).entries@);
        }
        true
    }

    /// Follows a link to `path` without leaving the shown document: a file
    /// that already has a tab gets the link's anchor queued there; any other
    /// file gets a background tab of its own.
    pub fn follow_in_background(&mut self, path: String, anchor: Option<String>, now: u64) -> (r:
        Followed)
        requires
            old(self).wf(),
            now <= TIME_LIMIT,
        ensures
            final(self).wf(),
            final(self).active_index() == old(self).active_index(),
            final(self).serial() == old(self).serial(),
            match r {
                Followed::Queued(i) => {
                    &&& i < old(self).tabs().len()
                    &&& old(self).paths()[i as int] == path@
                    &&& forall|j: int| 0 <= j < i ==> old(self).paths()[j] != path@
                    &&& i == old(self).active_index() ==> final(self).shown() == (Session {
                        pending_anchor: anchor,
                        ..old(self).shown()
                    }) && final(self).tabs() == old(self).tabs()
                    &&& i != old(self).active_index() ==> final(self).shown() == old(self).shown()
                        && final(self).tabs() == old(self).tabs().update(
                        i as int,
                        Tab {
                            session: Session {
                                pending_anchor: anchor,
                                ..old(self).tabs()[i as int].session
                            },
                            ..old(self).tabs()[i as int]
                        },
                    )
                },
                Followed::Opened => Self::queued(*old(self), *final(self), path@, anchor, now, true),
                Followed::Nothing => {
                    &&& !old(self).paths().contains(path@)
                    &&& old(self).shown().path is None
                    &&& final(self).tabs() == old(self).tabs()
                    &&& final(self).shown() == old(self).shown()
                },
            },
    {
        match self.find(path.as_str()) {
            Some(i) => {
                self.queue_anchor(i, anchor);
                Followed::Queued(i)
            },
            None => {
                proof {
                    assert forall|j: int| 0 <= j < self.paths().len() implies self.paths()[j]
                        != path@ by {}
                    if self.paths().contains(path@) {
                        let j = choose|j: int| 0 <= j < self.paths().len() && self.paths()[j]
                            == path@;
                        assert(self.paths()[j] != path@);
                    }
                }
                if self.open_background(path, anchor, now) {
                    Followed::Opened
                } else {
                    Followed::Nothing
                }
            },
        }
    }

    /// Replaces the heading anchor a tab applies when it is next displayed.
    pub fn queue_anchor(&mut self, index: usize, anchor: Option<String>)
        requires
            old(self).wf(),
        ensures
            final(self).wf(),
            index == old(self).active_index() ==> final(self).shown() == (Session {
                pending_anchor: anchor,
                ..old(self).shown()
            }) && final(self).tabs() == old(self).tabs(),
            index != old(self).active_index() ==> final(self).shown() == old(self).shown(),
            index != old(self).active_index() && index < old(self).tabs().len() ==> final(self).tabs() == old(self).tabs().update(
                index as int,
                Tab {
                    session: Session {
                        pending_anchor: anchor,
                        ..old(self).tabs()[index as int].session
                    },
                    ..old(self).tabs()[index as int]
                },
            ),
            index != old(self).active_index() && index >= old(self).tabs().len() ==> final(self).tabs() == old(self).tabs(),
            final(self).active_index() == old(self).active_index(),
            final(self).serial() == old(self).serial(),
    {
        if index == self.active {
            self.session.pending_anchor = anchor;
        } else if index < self.entries.len() {
            let mut tab = Tab { path: String::new(), session: Session::blank(), last_active: 0 };
            self.swap_tab(index, &mut tab);
            tab.session.pending_anchor = anchor;
            self.swap_tab(index, &mut tab);
        }
    }

    /// Shows the tab at `index`, parking the shown session in its own tab.
    /// Both tabs count as shown at `now`.
    pub fn select(&mut self, index: usize, now: u64) -> (r: bool)
        requires
            old(self).wf(),
            now <= TIME_LIMIT,
        ensures
            final(self).wf(),
            Self::switched(*old(self), *final(self), index, now, r),
            final(self).serial() == old(self).serial(),
    {
        if index >= self.entries.len() || index == self.active {
            return false;
        }
        self.session.view.cancel_scroll_animation();
        // The strip holds the shown file whenever something is shown.
        self.park_session(now);
        self.active = index;
        self.unpark_session(index, now);
        self.session.view.cancel_scroll_animation();
        true
    }

    /// Closes the tab at `index`.
    ///
    /// A background tab simply leaves the strip. Closing the shown tab shows
    /// the tab that takes its place, or the one before it when it was last,
    /// marked as shown at `now`; closing the last tab shows nothing.
    pub fn close(&mut self, index: usize, now: u64) -> (r: Closed)
        requires
            old(self).wf(),
            now <= TIME_LIMIT,
        ensures
            final(self).wf(),
            final(self).serial() == old(self).serial(),
            r == if index >= old(self).tabs().len() {
                Closed::Missing
            } else if index != old(self).active_index() {
                Closed::Inactive
            } else {
                Closed::Active
            },
            r == Closed::Missing ==> final(self).tabs() == old(self).tabs() && final(self).shown() == old(self).shown() && final(self).active_index() == old(self).active_index(),
            r == Closed::Inactive ==> {
                &&& final(self).tabs() == old(self).tabs().remove(index as int)
                &&& final(self).shown() == old(self).shown()
                &&& final(self).active_index() == if index < old(self).active_index() {
                    old(self).active_index() - 1
                } else {
                    old(self).active_index()
                }
            },
            r == Closed::Active && old(self).tabs().len() == 1 ==> {
                &&& final(self).tabs().len() == 0
                &&& final(self).shown() == Session::<D, O, V>::empty()
            },
            r == Closed::Active && old(self).tabs().len() > 1 ==> {
                let rest = old(self).tabs().remove(index as int);
                let shown = if index < rest.len() {
                    index as int
                } else {
                    index - 1
                };
                &&& final(self).active_index() == shown
                &&& final(self).tabs().len() == rest.len()
                &&& final(self).shown() == rest[shown].session.settle()
                &&& final(self).tabs()[shown].path == rest[shown].path
                &&& final(self).tabs()[shown].last_active == now
                &&& final(self).tabs()[shown].session == Session::<D, O, V>::empty()
                &&& forall|i: int|
                    0 <= i < rest.len() && i != shown ==> #[trigger] final(self).tabs()[i]
                        == rest[i]
            },
    {
        if index >= self.entries.len() {
            return Closed::Missing;
        }
        if index != self.active {
            let ghost before = self.entries@;
            self.entries.remove(index);
            if index < self.active {
                self.active = self.active - 1;
            }
            proof {
                assert forall|i: int|
                    0 <= i < self.entries@.len() && i != self.active as int implies opt_view(
                    #[trigger] self.entries@[i].session.path,
                ) == Some(self.entries@[i].path@) by {
                    if i < index {
                        assert(self.entries@[i] == before[i]);
                    } else {
                        assert(self.entries@[i] == before[i + 1]);
                    }
                }
                assert forall|i: int| 0 <= i < self.entries@.len() implies #[trigger] self.entries@[i].last_active
                    <= TIME_LIMIT && self.entries@[i].session.version <= self.request_serial by {
                    if i < index {
                        assert(self.entries@[i] == before[i]);
                    } else {
                        assert(self.entries@[i] == before[i + 1]);
                    }
                }
            }
            return Closed::Inactive;
        }
        self.entries.remove(index);
        let ghost rest = self.entries@;
        if self.entries.len() == 0 {
            self.active = 0;
            self.session = Session::blank();
        } else {
            self.active = if index < self.entries.len() {
                index
            } else {
                self.entries.len() - 1
            };
            let a = self.active;
            self.unpark_session(a, now);
            self.session.view.cancel_scroll_animation();
            proof {
                assert forall|i: int|
                    0 <= i < self.entries@.len() && i != a implies #[trigger] self.entries@[i]
                        == rest[i] by {}
            }
        }
        Closed::Active
    }

    /// Asks for a layout of the shown document, when one is shown. Every
    /// request carries a version newer than any issued before it.
    pub fn request(&mut self, options: O, follow: bool) -> (r: Option<Request>)
        requires
            old(self).wf(),
            old(self).serial() < u64::MAX,
        ensures
            final(self).wf(),
            final(self).tabs() == old(self).tabs(),
            final(self).active_index() == old(self).active_index(),
            Self::issued(*old(self), *final(self), options, follow, r),
    {
        let path = match &self.session.path {
            Some(path) => path.clone(),
            None => return None,
        };
        self.request_serial = self.request_serial + 1;
        self.session.version = self.request_serial;
        self.session.follow_update = self.session.follow_update || follow;
        self.session.requested_options = Some(options);
        self.session.layout_pending = true;
        Some(
            Request {
                version: self.session.version,
                content_version: self.session.content_version,
                path,
                load_all_images: self.session.load_all_images,
            },
        )
    }

    /// Takes note that the file at `path` changed on disk. When it is the shown
    /// file, its text is new: the content version moves on, remote images and
    /// the remote notice ask again, and any scroll easing ends; the caller then
    /// asks for a layout. Any other file waits until it is shown.
    pub fn file_changed(&mut self, path: &str) -> (r: bool)
        requires
            old(self).wf(),
            old(self).shown().content_version < u64::MAX,
        ensures
            final(self).wf(),
            r == (opt_view(old(self).shown().path) == Some(path@)),
            r ==> final(self).shown() == (Session {
                content_version: (old(self).shown().content_version + 1) as u64,
                load_all_images: false,
                remote_notice_dismissed: false,
                view: old(self).shown().view.settled(),
                ..old(self).shown()
            }),
            !r ==> final(self).shown() == old(self).shown(),
            final(self).tabs() == old(self).tabs(),
            final(self).active_index() == old(self).active_index(),
            final(self).serial() == old(self).serial(),
    {
        let shown = match &self.session.path {
            Some(p) => str_equal(p.as_str(), path),
            None => false,
        };
        if !shown {
            return false;
        }
        self.session.content_version = self.session.content_version + 1;
        self.session.load_all_images = false;
        self.session.remote_notice_dismissed = false;
        self.session.view.cancel_scroll_animation();
        true
    }

    /// Whether a finished layout answers the shown session's latest request:
    /// the same request version, for the file still shown. Any other result
    /// is stale and is dropped.
    pub fn is_current(&self, version: u64, path: &str) -> (r: bool)
        ensures
            r == (version == self.shown().version && opt_view(self.shown().path) == Some(path@)),
    {
        if version != self.session.version {
            return false;
        }
        match &self.session.path {
            Some(p) => str_equal(p.as_str(), path),
            None => false,
        }
    }

    /// Releases the heavy state of every background tab that has held a
    /// document without being shown for `RELEASE_AFTER` or longer.
    pub fn release_inactive(&mut self, now: u64)
        requires
            old(self).wf(),
        ensures
            final(self).wf(),
            final(self).shown() == old(self).shown(),
            final(self).active_index() == old(self).active_index(),
            final(self).serial() == old(self).serial(),
            final(self).tabs().len() == old(self).tabs().len(),
            forall|i: int|
                0 <= i < old(self).tabs().len() ==> {
                    let (t, o) = (#[trigger] final(self).tabs()[i], old(self).tabs()[i]);
                    &&& t.path == o.path
                    &&& t.last_active == o.last_active
                    &&& if i != old(self).active_index() && now >= o.last_active + RELEASE_AFTER
                        && o.session.document is Some {
                        t.session == (Session { document: None, view: o.session.view.released(), ..o.session })
                    } else {
                        t == o
                    }
                },
    {
        let mut i: usize = 0;
        while i < self.entries.len()
            invariant
                old(self).wf(),
                i <= self.entries@.len(),
                self.entries@.len() == old(self).tabs().len(),
                self.session == old(self).session,
                self.active == old(self).active,
                self.request_serial == old(self).request_serial,
                forall|k: int|
                    i <= k < self.entries@.len() ==> #[trigger] self.entries@[k] == old(self).tabs()[k],
                forall|k: int|
                    0 <= k < i ==> {
                        let (t, o) = (#[trigger] self.entries@[k], old(self).tabs()[k]);
                        &&& t.path == o.path
                        &&& t.last_active == o.last_active
                        &&& if k != old(self).active_index() && now >= o.last_active
                            + RELEASE_AFTER && o.session.document is Some {
                            t.session == (Session {
                                document: None,
                                view: o.session.view.released(),
                                ..o.session
                            })
                        } else {
                            t == o
                        }
                    },
            decreases self.entries.len() - i,
        {
            if i != self.active && self.entries[i].last_active <= now && now
                - self.entries[i].last_active >= RELEASE_AFTER
                && self.entries[i].session.document.is_some() {
                let mut tab = Tab { path: String::new(), session: Session::blank(), last_active: 0 };
                self.swap_tab(i, &mut tab);
                tab.session.release_heavy();
                self.swap_tab(i, &mut tab);
            }
            i = i + 1;
        }
    }

    /// When the next background tab becomes due for release: the earliest
    /// `last_active + RELEASE_AFTER` over the tabs that hold a document.
    pub fn release_deadline(&self) -> (r: Option<u64>)
        requires
            self.wf(),
        ensures
            r is None <==> forall|i: int|
                0 <= i < self.tabs().len() ==> #[trigger] self.tabs()[i].session.document is None,
            r matches Some(t) ==> {
                &&& exists|i: int|
                    0 <= i < self.tabs().len() && #[trigger] self.tabs()[i].session.document is Some
                        && t == self.tabs()[i].last_active + RELEASE_AFTER
                &&& forall|i: int|
                    0 <= i < self.tabs().len() && #[trigger] self.tabs()[i].session.document is Some
                        ==> t <= self.tabs()[i].last_active + RELEASE_AFTER
            },
    {
        let mut best: Option<u64> = None;
        let mut i: usize = 0;
        while i < self.entries.len()
            invariant
                self.wf(),
                i <= self.entries@.len(),
                best is None <==> forall|k: int|
                    0 <= k < i ==> #[trigger] self.entries@[k].session.document is None,
                best matches Some(t) ==> {
                    &&& exists|k: int|
                        0 <= k < i && #[trigger] self.entries@[k].session.document is Some && t
                            == self.entries@[k].last_active + RELEASE_AFTER
                    &&& forall|k: int|
                        0 <= k < i && #[trigger] self.entries@[k].session.document is Some ==> t
                            <= self.entries@[k].last_active + RELEASE_AFTER
                },
            decreases self.entries.len() - i,
        {
            if self.entries[i].session.document.is_some() {
                proof {
                    assert(self.entries@[i as int].last_active <= TIME_LIMIT);
                }
                let due = self.entries[i].last_active + RELEASE_AFTER;
                best = match best {
                    Some(t) => if due < t { Some(due) } else { Some(t) },
                    None => Some(due),
                };
            }
            i = i + 1;
        }
        best
    }
}


/// Reordering the strip keeps every tab, each with its own session, and keeps
/// the shown tab shown.
pub proof fn reorder_keeps_every_tab<D, O, V: SessionView>(
    old: Tabs<D, O, V>,
    new: Tabs<D, O, V>,
    from: usize,
    to: usize,
)
    requires
        old.wf(),
        Tabs::reordered(old, new, from, to, true),
    ensures
        new.tabs().to_multiset() == old.tabs().to_multiset(),
        new.tabs()[new.active_index()] == old.tabs()[old.active_index()],
{
    let s = old.tabs();
    let (f, t) = (from as int, to as int);
    let x = s[f];
    let m = moved(s, f, t);
    broadcast use vstd::seq_lib::group_to_multiset_ensures;

    assert(m.remove(t) =~= s.remove(f));
    assert(m[t] == x);
    assert(m.to_multiset().remove(x) =~= s.to_multiset().remove(x));
    assert(m.to_multiset().count(x) > 0);
    assert(s.to_multiset().count(x) > 0) by {
        assert(s.contains(x)) by {
            assert(s[f] == x);
        }
    }
    assert(m.to_multiset() =~= s.to_multiset()) by {
        assert forall|y| #[trigger] m.to_multiset().count(y) == s.to_multiset().count(y) by {
            if y == x {
                assert(m.to_multiset().remove(x).count(x) == m.to_multiset().count(x) - 1);
                assert(s.to_multiset().remove(x).count(x) == s.to_multiset().count(x) - 1);
            } else {
                assert(m.to_multiset().remove(x).count(y) == m.to_multiset().count(y));
                assert(s.to_multiset().remove(x).count(y) == s.to_multiset().count(y));
            }
        }
    }
    lemma_moved_index(s, f, t, old.active_index());
    lemma_moved_source(s, f, t, moved_index(old.active_index(), f, t));
}

/// Switching to another tab and back shows the first tab again with its whole
/// session, view included, only with no scroll easing in flight; the other tab
/// keeps the session it showed, settled the same way.
pub proof fn switching_back_restores_the_session<D, O, V: SessionView>(
    t0: Tabs<D, O, V>,
    t1: Tabs<D, O, V>,
    t2: Tabs<D, O, V>,
    index: usize,
    now: u64,
    later: u64,
)
    requires
        t0.wf(),
        Tabs::switched(t0, t1, index, now, true),
        Tabs::switched(t1, t2, t0.active_index() as usize, later, true),
    ensures
        t2.active_index() == t0.active_index(),
        t2.shown() == t0.shown().settle().settle(),
        t2.tabs()[index as int].session == t1.shown().settle(),
        t2.paths() == t0.paths(),
{
    assert(t2.paths() =~= t0.paths()) by {
        assert forall|i: int| 0 <= i < t2.paths().len() implies t2.paths()[i] == t0.paths()[i] by {
            if i != t0.active_index() && i != index {
                assert(t2.tabs()[i] == t1.tabs()[i]);
            }
        }
    }
}

/// Whatever tabs were opened, switched, moved or closed, an empty strip shows
/// nothing at index 0, and otherwise the active index is inside the strip and
/// the shown session reads the active tab's file; every other tab keeps a
/// session of its own file.
pub proof fn the_shown_tab_is_in_the_strip<D, O, V: SessionView>(t: Tabs<D, O, V>)
    requires
        t.wf(),
    ensures
        t.tabs().len() == 0 ==> t.active_index() == 0 && t.shown().path is None,
        t.tabs().len() > 0 ==> 0 <= t.active_index() < t.tabs().len() && opt_view(t.shown().path)
            == Some(t.tabs()[t.active_index()].path@),
        forall|i: int|
            0 <= i < t.tabs().len() && i != t.active_index() ==> opt_view(
                #[trigger] t.tabs()[i].session.path,
            ) == Some(t.tabs()[i].path@),
{
}

/// Every request is newer than any request a session already holds, whatever
/// tab it was issued from.
pub proof fn requests_are_globally_ordered<D, O, V: SessionView>(
    t0: Tabs<D, O, V>,
    t1: Tabs<D, O, V>,
    options: O,
    follow: bool,
    q: Request,
)
    requires
        t0.wf(),
        Tabs::issued(t0, t1, options, follow, Some(q)),
    ensures
        q.version > t0.shown().version,
        forall|i: int| 0 <= i < t0.tabs().len() ==> q.version > #[trigger] t0.tabs()[i].session.version,
{
}

/// A file queued in the background has a tab, so queueing it again does
/// nothing, and neither call disturbs the shown reader.
pub proof fn background_tabs_are_not_duplicated<D, O, V: SessionView>(
    t0: Tabs<D, O, V>,
    t1: Tabs<D, O, V>,
    t2: Tabs<D, O, V>,
    path: Seq<char>,
    first: Option<String>,
    second: Option<String>,
    now: u64,
    later: u64,
    r: bool,
)
    requires
        Tabs::queued(t0, t1, path, first, now, true),
        Tabs::queued(t1, t2, path, second, later, r),
    ensures
        !r,
        t2.tabs() == t1.tabs(),
        t2.shown() == t0.shown(),
        t2.active_index() == t0.active_index(),
{
    assert(t1.paths().last() == path);
    assert(t1.paths().contains(path)) by {
        assert(t1.paths()[t1.paths().len() - 1] == path);
    }
}

/// The old position of the entry found at `i` after a move from `from` to `to`.
pub open spec fn moved_source(i: int, from: int, to: int) -> int {
    if i == to {
        from
    } else if from < to && from <= i && i < to {
        i + 1
    } else if to < from && to < i && i <= from {
        i - 1
    } else {
        i
    }
}

proof fn lemma_moved_source<T>(s: Seq<T>, from: int, to: int, i: int)
    requires
        0 <= from < s.len(),
        0 <= to < s.len(),
        0 <= i < s.len(),
    ensures
        moved(s, from, to).len() == s.len(),
        moved(s, from, to)[i] == s[moved_source(i, from, to)],
        0 <= moved_source(i, from, to) < s.len(),
{
}

proof fn lemma_moved_index<T>(s: Seq<T>, from: int, to: int, a: int)
    requires
        0 <= from < s.len(),
        0 <= to < s.len(),
        0 <= a < s.len(),
    ensures
        0 <= moved_index(a, from, to) < s.len(),
        moved_source(moved_index(a, from, to), from, to) == a,
{
}

proof fn lemma_moved_source_inverse(from: int, to: int, a: int, i: int, n: int)
    requires
        0 <= from < n,
        0 <= to < n,
        0 <= a < n,
        0 <= i < n,
        i != moved_index(a, from, to),
    ensures
        moved_source(i, from, to) != a,
{
}

} // verus!
