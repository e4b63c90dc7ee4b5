//! When the reader's settings are written back, and what it says when that
//! fails. The settings file itself is read and written by the caller, which
//! hands each outcome back here.
use vstd::prelude::*;
use crate::text::push_str;

verus! {

/// A reader setting the command line can speak for.
#[derive(Clone, Copy, Debug, PartialEq, Eq, Structural)]
pub enum Setting {
    Theme,
    Width,
    FontSize,
    ParagraphIndent,
    CjkType,
    Justify,
    Hyphenate,
}

/// The settings the command line still speaks for after the reader changed
/// `field` (`None`: all of them at once): the changed one is the reader's
/// again, and a change of everything releases every one.
pub open spec fn kept_overrides(overrides: Seq<Setting>, field: Option<Setting>) -> Seq<Setting>
    decreases overrides.len(),
{
    if overrides.len() == 0 {
        seq![]
    } else {
        kept_overrides(overrides.drop_last(), field) + match field {
            Some(f) if f != overrides.last() => seq![overrides.last()],
            _ => seq![],
        }
    }
}

/// Drops the command line's hold on the settings a change touched. Returns
/// whether the change touched the theme, so the styles reload and the
/// command line's theme and styles no longer apply.
pub fn setting_changed(overrides: &mut Vec<Setting>, field: Option<Setting>) -> (r: bool)
    ensures
        final(overrides)@ == kept_overrides(old(overrides)@, field),
        r == (field is None || field == Some(Setting::Theme)),
{
    let mut kept: Vec<Setting> = Vec::new();
    let mut i: usize = 0;
    while i < overrides.len()
        invariant
            i <= overrides@.len(),
            overrides@ == old(overrides)@,
            kept@ == kept_overrides(old(overrides)@.take(i as int), field),
        decreases overrides.len() - i,
    {
        let f = overrides[i];
        proof {
            assert(old(overrides)@.take(i + 1).drop_last() =~= old(overrides)@.take(i as int));
        }
        match field {
            Some(changed) => {
                if changed != f {
                    kept.push(f);
                }
            },
            None => {},
        }
        proof {
            assert(kept@ =~= kept_overrides(old(overrides)@.take(i + 1), field));
        }
        i = i + 1;
    }
    proof {
        assert(old(overrides)@.take(old(overrides)@.len() as int) =~= old(overrides)@);
    }
    *overrides = kept;
    match field {
        None => true,
        Some(Setting::Theme) => true,
        Some(_) => false,
    }
}

/// A setting the reader changed is no longer the command line's, and every
/// other override stays.
pub proof fn a_change_releases_only_its_setting(overrides: Seq<Setting>, f: Setting, g: Setting)
    ensures
        !kept_overrides(overrides, Some(f)).contains(f),
        g != f ==> (kept_overrides(overrides, Some(f)).contains(g) <==> overrides.contains(g)),
        kept_overrides(overrides, None).len() == 0,
    decreases overrides.len(),
{
    if overrides.len() > 0 {
        let before = overrides.drop_last();
        a_change_releases_only_its_setting(before, f, g);
        let k = kept_overrides(overrides, Some(f));
        let kb = kept_overrides(before, Some(f));
        if k.contains(f) {
            let i = choose|i: int| 0 <= i < k.len() && k[i] == f;
            if i < kb.len() {
                assert(kb[i] == f);
            }
        }
        if g != f {
            if k.contains(g) {
                let i = choose|i: int| 0 <= i < k.len() && k[i] == g;
                if i < kb.len() {
                    assert(kb[i] == g);
                    assert(kb.contains(g));
                    let j = choose|j: int| 0 <= j < before.len() && before[j] == g;
                    assert(overrides[j] == g);
                } else {
                    assert(overrides[overrides.len() - 1] == g);
                }
            }
            if overrides.contains(g) {
                let j = choose|j: int| 0 <= j < overrides.len() && overrides[j] == g;
                if j < overrides.len() - 1 {
                    assert(before[j] == g);
                    assert(before.contains(g));
                    let i = choose|i: int| 0 <= i < kb.len() && kb[i] == g;
                    assert(k[i] == g);
                } else {
                    assert(k[kb.len() as int] == g);
                }
            }
        }
    }
}

/// How long after a change the settings are written, so a burst of changes
/// is written once.
pub const SAVE_DELAY_MS: u64 = 250;

/// The save schedule and the warnings the settings panel shows. Times are
/// milliseconds on the caller's monotonic clock.
pub struct Preferences {
    /// The page of the stylesheet list on screen.
    pub style_page: usize,
    pub style_warning: Option<String>,
    pub settings_warning: Option<String>,
    /// When a save is due, if one is.
    pub save_at: Option<u64>,
}

impl Preferences {
    /// Nothing to save yet; `settings_warning` is what loading the settings
    /// reported.
    pub fn new(settings_warning: Option<String>, style_warning: Option<String>) -> (p: Self)
        ensures
            p.save_at is None,
            p.style_page == 0,
            p.settings_warning == settings_warning,
            p.style_warning == style_warning,
    {
        Preferences { style_page: 0, style_warning, settings_warning, save_at: None }
    }

    /// When the pending save is due.
    pub fn save_deadline(&self) -> (r: Option<u64>)
        ensures
            r == self.save_at,
    {
        self.save_at
    }

    /// Writes the settings a short delay from `now`, replacing any earlier
    /// deadline, so the last of a burst of changes decides when they land.
    pub fn schedule_save(&mut self, now: u64)
        requires
            now <= u64::MAX - SAVE_DELAY_MS,
        ensures
            final(self).save_at == Some((now + SAVE_DELAY_MS) as u64),
            final(self).style_page == old(self).style_page,
            final(self).style_warning == old(self).style_warning,
            final(self).settings_warning == old(self).settings_warning,
    {
        self.save_at = Some(now + SAVE_DELAY_MS);
    }

    /// One setting changed and was recorded in the store: schedules a save.
    pub fn changed(&mut self, now: u64)
        requires
            now <= u64::MAX - SAVE_DELAY_MS,
        ensures
            final(self).save_at == Some((now + SAVE_DELAY_MS) as u64),
            final(self).style_page == old(self).style_page,
            final(self).style_warning == old(self).style_warning,
            final(self).settings_warning == old(self).settings_warning,
    {
        self.schedule_save(now);
    }

    /// The settings file was read again. A failure is shown as it was
    /// reported; a success clears the warning and, when the store still holds
    /// changes the file lacks, schedules a save. Returns whether the file was
    /// read.
    pub fn reload(&mut self, outcome: Result<(), String>, pending: bool, now: u64) -> (r: bool)
        requires
            now <= u64::MAX - SAVE_DELAY_MS,
        ensures
            r == outcome is Ok,
            final(self).style_page == old(self).style_page,
            final(self).style_warning == old(self).style_warning,
            match outcome {
                Ok(()) => {
                    &&& final(self).settings_warning is None
                    &&& final(self).save_at == if pending {
                        Some((now + SAVE_DELAY_MS) as u64)
                    } else {
                        old(self).save_at
                    }
                },
                Err(e) => {
                    &&& final(self).settings_warning == Some(e)
                    &&& final(self).save_at == old(self).save_at
                },
            },
    {
        match outcome {
            Ok(()) => {
                self.settings_warning = None;
                if pending {
                    self.save_at = Some(now + SAVE_DELAY_MS);
                }
                true
            },
            Err(error) => {
                self.settings_warning = Some(error);
                false
            },
        }
    }

    /// The pending save ran. Whatever came of it, nothing is pending any
    /// more; a failure is shown as `Cannot save settings: ` and the reason.
    /// Returns whether the file was written.
    pub fn flush(&mut self, outcome: Result<(), String>) -> (r: bool)
        ensures
            r == outcome is Ok,
            final(self).save_at is None,
            final(self).style_page == old(self).style_page,
            final(self).style_warning == old(self).style_warning,
            match outcome {
                Ok(()) => final(self).settings_warning is None,
                Err(e) => final(self).settings_warning matches Some(w) && w@ == "Cannot save settings: "@
                    + e@,
            },
    {
        self.save_at = None;
        match outcome {
            Ok(()) => {
                self.settings_warning = None;
                true
            },
            Err(error) => {
                let mut text = String::new();
                push_str(&mut text, "Cannot save settings: ");
                push_str(&mut text, error.as_str());
                self.settings_warning = Some(text);
                false
            },
        }
    }

    /// The stylesheet list's previous page; the first page stays put.
    pub fn style_prev(&mut self)
        ensures
            final(self).style_page == if old(self).style_page > 0 {
                old(self).style_page - 1
            } else {
                0
            },
            final(self).save_at == old(self).save_at,
    {
        if self.style_page > 0 {
            self.style_page = self.style_page - 1;
        }
    }

    /// The stylesheet list's next page.
    pub fn style_next(&mut self)
        requires
            old(self).style_page < usize::MAX,
        ensures
            final(self).style_page == old(self).style_page + 1,
            final(self).save_at == old(self).save_at,
    {
        self.style_page = self.style_page + 1;
    }
}

} // verus!
