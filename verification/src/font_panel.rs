//! The Fonts page's own state: its filters, the families it shows, the
//! downloads it is following, and the note under the list. Downloads run
//! elsewhere; their progress and their end are handed back here.
use vstd::prelude::*;
use crate::fonts::{Family, FontState, Phase, Progress};
use crate::styles::texts;
use crate::text::{decimal, push_decimal, push_str, str_equal};

verus! {

/// What a download run reports when it ends.
pub struct Summary {
    /// The families the run was asked for.
    pub requested: Vec<String>,
    /// The families that failed, each with why.
    pub failed: Vec<(String, String)>,
    pub cancelled: Vec<String>,
    /// Files written.
    pub stored: u64,
    /// Bytes written.
    pub bytes: u64,
}

/// Why the page would not start a download.
#[derive(Clone, Copy, Debug, PartialEq, Eq, Structural)]
pub enum Refusal {
    /// Everything asked for is being downloaded already.
    Busy,
    /// Everything asked for is on disk already.
    Present,
    Offline,
    /// There is no directory to download into.
    NoDirectory,
}

/// The page's state.
pub struct FontPanel {
    pub catalog: Vec<Family>,
    /// The downloads being followed, one per family.
    pub jobs: Vec<Progress>,
    /// The families asked to stop.
    pub cancel: Vec<String>,
    pub note: Option<String>,
    /// Only families this sheet declares, when set.
    pub source_filter: Option<String>,
    /// Only families in this state, when set.
    pub status_filter: Option<FontState>,
}

impl Default for FontPanel {
    /// An empty page.
    fn default() -> (p: Self)
        ensures
            p.wf(),
            p.catalog@.len() == 0,
            p.jobs@.len() == 0,
            p.cancel@.len() == 0,
            p.note is None,
            p.source_filter is None,
            p.status_filter is None,
    {
        FontPanel::new()
    }
}

/// Whether `list` holds `x`.
pub open spec fn includes(list: Seq<Seq<char>>, x: Seq<char>) -> bool {
    list.contains(x)
}

/// Whether the page's filters let family `f` through.
pub open spec fn passes(f: Family, source: Option<Seq<char>>, status: Option<FontState>) -> bool {
    &&& match source {
        Some(s) => includes(texts(f.owners@), s),
        None => true,
    }
    &&& match status {
        Some(st) => f.state == st,
        None => true,
    }
}

/// The catalogue positions below `n` that pass the filters, in order.
pub open spec fn shown_upto(
    catalog: Seq<Family>,
    source: Option<Seq<char>>,
    status: Option<FontState>,
    n: int,
) -> Seq<usize>
    decreases n,
{
    if n <= 0 {
        seq![]
    } else {
        shown_upto(catalog, source, status, n - 1) + if passes(catalog[n - 1], source, status) {
            seq![(n - 1) as usize]
        } else {
            seq![]
        }
    }
}

/// The items of `list` in order, each kept only where it first occurs.
pub open spec fn distinct(list: Seq<Seq<char>>) -> Seq<Seq<char>>
    decreases list.len(),
{
    if list.len() == 0 {
        seq![]
    } else {
        let before = distinct(list.drop_last());
        if includes(list.drop_last(), list.last()) {
            before
        } else {
            before.push(list.last())
        }
    }
}

/// Every owner of every family, in catalogue order.
pub open spec fn owners_of(catalog: Seq<Family>) -> Seq<Seq<char>>
    decreases catalog.len(),
{
    if catalog.len() == 0 {
        seq![]
    } else {
        owners_of(catalog.drop_last()) + texts(catalog.last().owners@)
    }
}

/// The declaring sheets the source filter cycles through, each once, in the
/// order the catalogue first names them.
pub open spec fn sources(catalog: Seq<Family>) -> Seq<Seq<char>> {
    distinct(owners_of(catalog))
}

/// Where `x` first occurs in `list`.
pub open spec fn index_in(list: Seq<Seq<char>>, x: Seq<char>) -> Option<int> {
    crate::styles::first_index(list, x)
}

/// The source filter after one press: the first sheet from none, the next
/// sheet from one, and none again after the last (or from a sheet that no
/// longer declares anything).
pub open spec fn next_source(sources: Seq<Seq<char>>, current: Option<Seq<char>>) -> Option<
    Seq<char>,
> {
    match current {
        None => if sources.len() > 0 {
            Some(sources[0])
        } else {
            None
        },
        Some(c) => match index_in(sources, c) {
            Some(i) => if i + 1 < sources.len() {
                Some(sources[i + 1])
            } else {
                None
            },
            None => None,
        },
    }
}

/// The ids of the jobs being followed.
pub open spec fn job_ids(jobs: Seq<Progress>) -> Seq<Seq<char>> {
    jobs.map_values(|p: Progress| p.id@)
}

/// No two jobs follow one family.
pub open spec fn unique_ids(ids: Seq<Seq<char>>) -> bool {
    forall|i: int, j: int| 0 <= i < j < ids.len() ==> ids[i] != ids[j]
}

/// The jobs after one progress report: it replaces the family's job, or is
/// added after the others.
pub open spec fn reported(jobs: Seq<Progress>, p: Progress) -> Seq<Progress> {
    match index_in(job_ids(jobs), p.id@) {
        Some(i) => jobs.update(i, p),
        None => jobs.push(p),
    }
}

/// The jobs no id of `gone` names, in order.
pub open spec fn without_ids(jobs: Seq<Progress>, gone: Seq<Seq<char>>) -> Seq<Progress>
    decreases jobs.len(),
{
    if jobs.len() == 0 {
        seq![]
    } else {
        without_ids(jobs.drop_last(), gone) + if includes(gone, jobs.last().id@) {
            seq![]
        } else {
            seq![jobs.last()]
        }
    }
}

/// The note a finished run leaves: its first failure, else its first
/// cancellation, else what it stored, else that there was nothing to do.
pub open spec fn settled_note(s: Summary) -> Seq<char> {
    if s.failed@.len() > 0 {
        s.failed@[0].0@ + ": "@ + s.failed@[0].1@
    } else if s.cancelled@.len() > 0 {
        s.cancelled@[0]@ + ": cancelled"@
    } else if s.stored > 0 {
        decimal(s.stored as nat) + " files stored, "@ + decimal(s.bytes as nat / (1024 * 1024))
            + " MiB"@
    } else {
        "Nothing to download"@
    }
}

/// The text of a refusal.
pub open spec fn refusal_text(r: Refusal) -> Seq<char> {
    match r {
        Refusal::Busy => "Those families are already downloading"@,
        Refusal::Present => "Everything selected is already downloaded"@,
        Refusal::Offline => "Offline: font downloads are unavailable"@,
        Refusal::NoDirectory => "No user configuration directory"@,
    }
}

/// A family's job before any of its progress arrives.
pub open spec fn queued(id: Seq<char>, p: Progress) -> bool {
    &&& p.id@ == id
    &&& p.phase == Phase::Queued
    &&& p.current is None
    &&& p.files_done == 0
    &&& p.files_total == 0
    &&& p.bytes_done == 0
    &&& p.bytes_total is None
    &&& p.note is None
}

fn contains_text(list: &Vec<String>, x: &str) -> (r: bool)
    ensures
        r == includes(texts(list@), x@),
{
    let mut i: usize = 0;
    while i < list.len()
        invariant
            i <= list@.len(),
            forall|k: int| 0 <= k < i ==> texts(list@)[k] != x@,
        decreases list.len() - i,
    {
        if str_equal(list[i].as_str(), x) {
            proof {
                assert(texts(list@)[i as int] == x@);
            }
            return true;
        }
        i = i + 1;
    }
    false
}

fn job_index(jobs: &Vec<Progress>, id: &str) -> (r: Option<usize>)
    ensures
        r matches Some(i) ==> index_in(job_ids(jobs@), id@) == Some(i as int),
        r is None ==> index_in(job_ids(jobs@), id@) is None,
{
    proof {
        crate::styles::lemma_first_index(job_ids(jobs@), id@);
    }
    let mut i: usize = 0;
    while i < jobs.len()
        invariant
            i <= jobs@.len(),
            forall|k: int| 0 <= k < i ==> #[trigger] job_ids(jobs@)[k] != id@,
            index_in(job_ids(jobs@), id@) matches Some(t) ==> i <= t,
        decreases jobs.len() - i,
    {
        proof {
            crate::styles::lemma_first_index(job_ids(jobs@), id@);
            assert(job_ids(jobs@)[i as int] == jobs@[i as int].id@);
        }
        if str_equal(jobs[i].id.as_str(), id) {
            return Some(i);
        }
        i = i + 1;
    }
    None
}

proof fn lemma_distinct(list: Seq<Seq<char>>)
    ensures
        forall|x: Seq<char>|
            #![trigger includes(distinct(list), x)]
            #![trigger includes(list, x)]
            includes(distinct(list), x) <==> includes(list, x),
        unique_ids(distinct(list)),
    decreases list.len(),
{
    if list.len() > 0 {
        let before = list.drop_last();
        lemma_distinct(before);
        let d = distinct(list);
        assert forall|x: Seq<char>| includes(d, x) <==> includes(list, x) by {
            if includes(list, x) {
                let i = choose|i: int| 0 <= i < list.len() && list[i] == x;
                if i < list.len() - 1 {
                    assert(before[i] == x);
                    assert(includes(before, x));
                    let k = choose|k: int| 0 <= k < distinct(before).len() && distinct(before)[k]
                        == x;
                    assert(d[k] == x);
                } else if includes(before, x) {
                    let k = choose|k: int| 0 <= k < distinct(before).len() && distinct(before)[k]
                        == x;
                    assert(d[k] == x);
                } else {
                    assert(d[d.len() - 1] == x);
                }
            }
            if includes(d, x) {
                let k = choose|k: int| 0 <= k < d.len() && d[k] == x;
                if k < distinct(before).len() {
                    assert(includes(distinct(before), x));
                    assert(before.contains(x));
                    let i = choose|i: int| 0 <= i < before.len() && before[i] == x;
                    assert(before[i] == list[i]);
                    assert(list[i] == x);
                } else {
                    assert(list[list.len() - 1] == x);
                }
            }
        }
        assert forall|i: int, j: int| 0 <= i < j < d.len() implies d[i] != d[j] by {
            if j == distinct(before).len() {
                assert(includes(distinct(before), d[i]));
            }
        }
    }
}

impl FontPanel {
    /// What the panel keeps true: at most one job per family.
    pub open spec fn wf(&self) -> bool {
        unique_ids(job_ids(self.jobs@))
    }

    /// An empty page: nothing catalogued, followed or filtered.
    pub fn new() -> (p: Self)
        ensures
            p.wf(),
            p.catalog@.len() == 0,
            p.jobs@.len() == 0,
            p.cancel@.len() == 0,
            p.note is None,
            p.source_filter is None,
            p.status_filter is None,
    {
        FontPanel {
            catalog: Vec::new(),
            jobs: Vec::new(),
            cancel: Vec::new(),
            note: None,
            source_filter: None,
            status_filter: None,
        }
    }

    /// The source filter's view.
    pub open spec fn source(&self) -> Option<Seq<char>> {
        match self.source_filter {
            Some(s) => Some(s@),
            None => None,
        }
    }

    /// The catalogue positions the page shows, filters applied, in order.
    pub fn shown_fonts(&self) -> (r: Vec<usize>)
        ensures
            r@ == shown_upto(
                self.catalog@,
                self.source(),
                self.status_filter,
                self.catalog@.len() as int,
            ),
    {
        let mut out: Vec<usize> = Vec::new();
        let mut i: usize = 0;
        while i < self.catalog.len()
            invariant
                i <= self.catalog@.len(),
                out@ == shown_upto(self.catalog@, self.source(), self.status_filter, i as int),
            decreases self.catalog.len() - i,
        {
            let f = &self.catalog[i];
            let by_source = match &self.source_filter {
                Some(s) => contains_text(&f.owners, s.as_str()),
                None => true,
            };
            let by_status = match self.status_filter {
                Some(st) => f.state == st,
                None => true,
            };
            if by_source && by_status {
                out.push(i);
            }
            proof {
                assert(out@ =~= shown_upto(
                    self.catalog@,
                    self.source(),
                    self.status_filter,
                    i + 1,
                ));
            }
            i = i + 1;
        }
        out
    }

    /// The family behind one shown position.
    pub fn shown_font_id(&self, index: usize) -> (r: Option<String>)
        ensures
            ({
                let shown = shown_upto(
                    self.catalog@,
                    self.source(),
                    self.status_filter,
                    self.catalog@.len() as int,
                );
                match r {
                    Some(id) => index < shown.len() && id@ == self.catalog@[shown[index as int] as int].id@,
                    None => index >= shown.len(),
                }
            }),
    {
        let shown = self.shown_fonts();
        proof {
            self.lemma_shown_in_range(self.catalog@.len() as int);
        }
        if index < shown.len() {
            Some(self.catalog[shown[index]].id.clone())
        } else {
            None
        }
    }

    /// Every family the page shows, in order.
    pub fn shown_font_ids(&self) -> (r: Vec<String>)
        ensures
            ({
                let shown = shown_upto(
                    self.catalog@,
                    self.source(),
                    self.status_filter,
                    self.catalog@.len() as int,
                );
                &&& r@.len() == shown.len()
                &&& forall|k: int|
                    0 <= k < shown.len() ==> #[trigger] r@[k]@ == self.catalog@[shown[k] as int].id@
            }),
    {
        let shown = self.shown_fonts();
        proof {
            self.lemma_shown_in_range(self.catalog@.len() as int);
        }
        let mut out: Vec<String> = Vec::new();
        let mut k: usize = 0;
        while k < shown.len()
            invariant
                k <= shown@.len(),
                forall|t: int| 0 <= t < shown@.len() ==> shown@[t] < self.catalog@.len(),
                out@.len() == k,
                forall|t: int| 0 <= t < k ==> #[trigger] out@[t]@ == self.catalog@[shown@[t] as int].id@,
            decreases shown.len() - k,
        {
            out.push(self.catalog[shown[k]].id.clone());
            k = k + 1;
        }
        out
    }

    proof fn lemma_shown_in_range(&self, n: int)
        requires
            n <= self.catalog@.len(),
        ensures
            forall|t: int|
                0 <= t < shown_upto(self.catalog@, self.source(), self.status_filter, n).len()
                    ==> #[trigger] shown_upto(
                    self.catalog@,
                    self.source(),
                    self.status_filter,
                    n,
                )[t] < n,
        decreases n,
    {
        if n > 0 {
            self.lemma_shown_in_range(n - 1);
            let prev = shown_upto(self.catalog@, self.source(), self.status_filter, n - 1);
            let cur = shown_upto(self.catalog@, self.source(), self.status_filter, n);
            assert forall|t: int| 0 <= t < cur.len() implies #[trigger] cur[t] < n by {
                if t < prev.len() {
                    assert(cur[t] == prev[t]);
                }
            }
        }
    }

    /// The declaring sheets the source filter cycles through.
    pub fn font_sources(&self) -> (r: Vec<String>)
        ensures
            texts(r@) == sources(self.catalog@),
    {
        let mut out: Vec<String> = Vec::new();
        let mut i: usize = 0;
        while i < self.catalog.len()
            invariant
                i <= self.catalog@.len(),
                texts(out@) == distinct(owners_of(self.catalog@.take(i as int))),
            decreases self.catalog.len() - i,
        {
            let owners = &self.catalog[i].owners;
            let ghost base = owners_of(self.catalog@.take(i as int));
            proof {
                assert(self.catalog@.take(i + 1).drop_last() =~= self.catalog@.take(i as int));
            }
            let mut j: usize = 0;
            while j < owners.len()
                invariant
                    j <= owners@.len(),
                    owners == self.catalog@[i as int].owners,
                    texts(out@) == distinct(base + texts(owners@).take(j as int)),
                decreases owners.len() - j,
            {
                let ghost list = base + texts(owners@).take(j as int);
                proof {
                    lemma_distinct(list);
                    assert((base + texts(owners@).take(j + 1)).drop_last() =~= list);
                    assert((base + texts(owners@).take(j + 1)).last() == owners@[j as int]@);
                }
                if !contains_text(&out, owners[j].as_str()) {
                    out.push(owners[j].clone());
                }
                proof {
                    assert(texts(out@) =~= distinct(base + texts(owners@).take(j + 1)));
                }
                j = j + 1;
            }
            proof {
                assert(texts(owners@).take(owners@.len() as int) =~= texts(owners@));
            }
            i = i + 1;
        }
        proof {
            assert(self.catalog@.take(self.catalog@.len() as int) =~= self.catalog@);
        }
        out
    }

    /// Advances the source filter to the next declaring sheet, or to all.
    pub fn next_font_source(&mut self)
        ensures
            final(self).source() == next_source(sources(old(self).catalog@), old(self).source()),
            final(self).catalog == old(self).catalog,
            final(self).jobs == old(self).jobs,
            final(self).cancel == old(self).cancel,
            final(self).note == old(self).note,
            final(self).status_filter == old(self).status_filter,
    {
        let sources = self.font_sources();
        let next = match &self.source_filter {
            None => if sources.len() > 0 {
                Some(sources[0].clone())
            } else {
                None
            },
            Some(current) => {
                match crate::styles::find_id(sources.as_slice(), current.as_str()) {
                    Some(at) => if at < sources.len() - 1 {
                        Some(sources[at + 1].clone())
                    } else {
                        None
                    },
                    None => None,
                }
            },
        };
        self.source_filter = next;
    }

    /// Advances the status filter through missing, installed, on disk, all.
    pub fn next_font_status(&mut self)
        ensures
            final(self).status_filter == match old(self).status_filter {
                None => Some(FontState::Missing),
                Some(FontState::Missing) => Some(FontState::Provided),
                Some(FontState::Provided) => Some(FontState::Downloaded),
                Some(FontState::Downloaded) => None,
            },
            final(self).catalog == old(self).catalog,
            final(self).jobs == old(self).jobs,
            final(self).cancel == old(self).cancel,
            final(self).note == old(self).note,
            final(self).source_filter == old(self).source_filter,
    {
        self.status_filter = crate::fonts::next_status(self.status_filter);
    }

    /// One progress report: it replaces the family's job, or starts following
    /// the family.
    pub fn progress(&mut self, p: Progress)
        requires
            old(self).wf(),
        ensures
            final(self).wf(),
            final(self).jobs@ == reported(old(self).jobs@, p),
            final(self).catalog == old(self).catalog,
            final(self).cancel == old(self).cancel,
            final(self).note == old(self).note,
            final(self).source_filter == old(self).source_filter,
            final(self).status_filter == old(self).status_filter,
    {
        let ghost start = self.jobs@;
        let ghost id = p.id@;
        proof {
            crate::styles::lemma_first_index(job_ids(start), id);
        }
        match job_index(&self.jobs, p.id.as_str()) {
            Some(i) => {
                self.jobs.set(i, p);
                proof {
                    assert(job_ids(self.jobs@) =~= job_ids(start).update(i as int, id));
                    assert forall|a: int, b: int|
                        0 <= a < b < job_ids(self.jobs@).len() implies job_ids(self.jobs@)[a]
                        != job_ids(self.jobs@)[b] by {
                        assert(job_ids(start)[a] == start[a].id@);
                        assert(job_ids(start)[b] == start[b].id@);
                    }
                }
            },
            None => {
                self.jobs.push(p);
                proof {
                    assert(job_ids(self.jobs@) =~= job_ids(start).push(id));
                    assert forall|a: int, b: int|
                        0 <= a < b < job_ids(self.jobs@).len() implies job_ids(self.jobs@)[a]
                        != job_ids(self.jobs@)[b] by {
                        if b == start.len() {
                            assert(job_ids(start)[a] == start[a].id@);
                        }
                    }
                }
            },
        }
    }

    /// A run ended: its families stop being followed, and the note says how
    /// it went.
    pub fn settled(&mut self, summary: &Summary)
        requires
            old(self).wf(),
        ensures
            final(self).wf(),
            final(self).jobs@ == without_ids(old(self).jobs@, texts(summary.requested@)),
            final(self).note matches Some(n) && n@ == settled_note(*summary),
            final(self).catalog == old(self).catalog,
            final(self).cancel == old(self).cancel,
            final(self).source_filter == old(self).source_filter,
            final(self).status_filter == old(self).status_filter,
    {
        let ghost gone = texts(summary.requested@);
        let mut kept: Vec<Progress> = Vec::new();
        let mut rest: Vec<Progress> = Vec::new();
        std::mem::swap(&mut rest, &mut self.jobs);
        let ghost all = rest@;
        let mut i: usize = 0;
        proof {
            assert(all.skip(0) =~= all);
            assert(all.len() == rest.len());
        }
        // Walk the jobs in order, keeping those the run did not own.
        while rest.len() > 0
            invariant
                i + rest@.len() == all.len(),
                all.len() <= usize::MAX,
                rest@ == all.skip(i as int),
                kept@ == without_ids(all.take(i as int), gone),
                unique_ids(job_ids(all)),
                gone == texts(summary.requested@),
            decreases rest.len(),
        {
            let job = rest.remove(0);
            proof {
                assert(job == all[i as int]);
                assert(all.take(i + 1).drop_last() =~= all.take(i as int));
                assert(all.skip(i + 1) =~= all.skip(i as int).remove(0));
            }
            if !contains_text(&summary.requested, job.id.as_str()) {
                kept.push(job);
            }
            proof {
                assert(kept@ =~= without_ids(all.take(i + 1), gone));
            }
            i = i + 1;
        }
        proof {
            assert(all.take(all.len() as int) =~= all);
            lemma_without_ids_unique(all, gone);
        }
        self.jobs = kept;
        self.note = Some(note_for(summary));
    }

    /// Asks one family's running download to stop.
    pub fn cancel_font(&mut self, id: &str)
        ensures
            includes(texts(final(self).cancel@), id@),
            texts(final(self).cancel@) == if includes(texts(old(self).cancel@), id@) {
                texts(old(self).cancel@)
            } else {
                texts(old(self).cancel@).push(id@)
            },
            final(self).catalog == old(self).catalog,
            final(self).jobs == old(self).jobs,
            final(self).note == old(self).note,
            final(self).source_filter == old(self).source_filter,
            final(self).status_filter == old(self).status_filter,
    {
        if !contains_text(&self.cancel, id) {
            let ghost before = self.cancel@;
            self.cancel.push(id.to_owned());
            proof {
                assert(texts(self.cancel@) =~= texts(before).push(id@));
                assert(texts(self.cancel@)[before.len() as int] == id@);
            }
        }
    }

    /// The families a download request still has to start: those that are
    /// not already being downloaded, in order, and whether any was.
    pub fn not_running(&self, ids: &[String]) -> (r: (Vec<String>, bool))
        ensures
            texts(r.0@) == idle(texts(ids@), job_ids(self.jobs@)),
            r.1 == exists|k: int| 0 <= k < ids@.len() && includes(job_ids(self.jobs@), ids@[k]@),
    {
        let mut out: Vec<String> = Vec::new();
        let mut busy = false;
        let ghost all = texts(ids@);
        let mut i: usize = 0;
        while i < ids.len()
            invariant
                i <= ids@.len(),
                all == texts(ids@),
                texts(out@) == idle(all.take(i as int), job_ids(self.jobs@)),
                busy == exists|k: int| 0 <= k < i && includes(job_ids(self.jobs@), ids@[k]@),
            decreases ids.len() - i,
        {
            proof {
                assert(all.take(i + 1).drop_last() =~= all.take(i as int));
                assert(all.take(i + 1).last() == ids@[i as int]@);
            }
            let running = match job_index(&self.jobs, ids[i].as_str()) {
                Some(_) => true,
                None => false,
            };
            proof {
                crate::styles::lemma_first_index(job_ids(self.jobs@), ids@[i as int]@);
                if includes(job_ids(self.jobs@), ids@[i as int]@) {
                    let k = choose|k: int| 0 <= k < job_ids(self.jobs@).len() && job_ids(
                        self.jobs@,
                    )[k] == ids@[i as int]@;
                    assert(job_ids(self.jobs@)[k] == ids@[i as int]@);
                }
            }
            if running {
                busy = true;
            } else {
                out.push(ids[i].clone());
            }
            proof {
                assert(texts(out@) =~= idle(all.take(i + 1), job_ids(self.jobs@)));
            }
            i = i + 1;
        }
        proof {
            assert(all.take(ids@.len() as int) =~= all);
        }
        (out, busy)
    }

    /// Starts following the families a request selected, or says why nothing
    /// starts: nothing selected (told apart by whether some were already
    /// running), offline, or no directory to write into. Each started family
    /// is queued and no longer asked to stop. Returns the refusal, if any.
    pub fn start(&mut self, selected: &[String], busy: bool, offline: bool, has_dir: bool) -> (r:
        Option<Refusal>)
        requires
            old(self).wf(),
            unique_ids(texts(selected@)),
            forall|k: int| 0 <= k < selected@.len() ==> !includes(job_ids(old(self).jobs@), #[trigger] selected@[k]@),
        ensures
            final(self).wf(),
            r == (if selected@.len() == 0 {
                Some(if busy {
                    Refusal::Busy
                } else {
                    Refusal::Present
                })
            } else if offline {
                Some(Refusal::Offline)
            } else if !has_dir {
                Some(Refusal::NoDirectory)
            } else {
                None
            }),
            r matches Some(why) ==> final(self).note matches Some(n) && n@ == refusal_text(why),
            r matches Some(_) ==> final(self).jobs == old(self).jobs && final(self).cancel == old(
                self,
            ).cancel,
            r is None ==> {
                &&& final(self).note is None
                &&& final(self).jobs@.len() == old(self).jobs@.len() + selected@.len()
                &&& final(self).jobs@.subrange(0, old(self).jobs@.len() as int) == old(self).jobs@
                &&& forall|k: int|
                    0 <= k < selected@.len() ==> queued(
                        #[trigger] selected@[k]@,
                        final(self).jobs@[old(self).jobs@.len() + k],
                    )
                &&& forall|k: int|
                    0 <= k < selected@.len() ==> !includes(
                        texts(final(self).cancel@),
                        #[trigger] selected@[k]@,
                    )
            },
            final(self).catalog == old(self).catalog,
            final(self).source_filter == old(self).source_filter,
            final(self).status_filter == old(self).status_filter,
    {
        let refusal = if selected.len() == 0 {
            if busy {
                Some(Refusal::Busy)
            } else {
                Some(Refusal::Present)
            }
        } else if offline {
            Some(Refusal::Offline)
        } else if !has_dir {
            Some(Refusal::NoDirectory)
        } else {
            None
        };
        if let Some(why) = refusal {
            self.note = Some(refusal_message(why).to_owned());
            return refusal;
        }
        let ghost start = self.jobs@;
        let mut k: usize = 0;
        while k < selected.len()
            invariant
                k <= selected@.len(),
                self.jobs@.len() == start.len() + k,
                self.jobs@.subrange(0, start.len() as int) == start,
                forall|t: int| 0 <= t < k ==> queued(#[trigger] selected@[t]@, self.jobs@[start.len() + t]),
                forall|t: int| 0 <= t < k ==> !includes(texts(self.cancel@), #[trigger] selected@[t]@),
                unique_ids(job_ids(self.jobs@)),
                unique_ids(texts(selected@)),
                forall|t: int| 0 <= t < selected@.len() ==> !includes(job_ids(start), #[trigger] selected@[t]@),
                self.catalog == old(self).catalog,
                self.source_filter == old(self).source_filter,
                self.status_filter == old(self).status_filter,
            decreases selected.len() - k,
        {
            let ghost before = self.jobs@;
            let ghost before_cancel = self.cancel@;
            self.jobs.push(queued_progress(selected[k].as_str()));
            self.uncancel(selected[k].as_str());
            proof {
                assert(self.jobs@.subrange(0, start.len() as int) =~= start) by {
                    assert(before.subrange(0, start.len() as int) == start);
                }
                assert forall|a: int, b: int|
                    0 <= a < b < job_ids(self.jobs@).len() implies job_ids(self.jobs@)[a]
                    != job_ids(self.jobs@)[b] by {
                    if b == before.len() {
                        let id = selected@[k as int]@;
                        if a < start.len() {
                            assert(job_ids(start)[a] == start[a].id@);
                            assert(start[a] == before[a]);
                            assert(job_ids(self.jobs@)[a] == job_ids(start)[a]);
                            assert(!includes(job_ids(start), id));
                        } else {
                            let t = a - start.len();
                            assert(queued(selected@[t]@, self.jobs@[start.len() + t]));
                            assert(texts(selected@)[t] != texts(selected@)[k as int]);
                        }
                    } else {
                        assert(job_ids(self.jobs@)[a] == job_ids(before)[a]);
                        assert(job_ids(self.jobs@)[b] == job_ids(before)[b]);
                    }
                }
                assert forall|t: int| 0 <= t < k + 1 implies !includes(
                    texts(self.cancel@),
                    #[trigger] selected@[t]@,
                ) by {
                    if t < k {
                        assert(!includes(texts(before_cancel), selected@[t]@));
                    }
                }
            }
            k = k + 1;
        }
        self.note = None;
        None
    }

    /// Stops asking one family to stop: the family is starting afresh.
    fn uncancel(&mut self, id: &str)
        ensures
            !includes(texts(final(self).cancel@), id@),
            forall|x: Seq<char>| includes(texts(final(self).cancel@), x) ==> includes(texts(old(self).cancel@), x),
            final(self).catalog == old(self).catalog,
            final(self).jobs == old(self).jobs,
            final(self).note == old(self).note,
            final(self).source_filter == old(self).source_filter,
            final(self).status_filter == old(self).status_filter,
    {
        let kept = crate::styles::remove_all(&self.cancel, id);
        proof {
            crate::styles::lemma_without_facts(texts(self.cancel@), id@);
            crate::styles::lemma_without_subset(texts(self.cancel@), id@);
        }
        self.cancel = kept;
    }
}

/// The ids of `ids` that no job follows, in order.
pub open spec fn idle(ids: Seq<Seq<char>>, running: Seq<Seq<char>>) -> Seq<Seq<char>>
    decreases ids.len(),
{
    if ids.len() == 0 {
        seq![]
    } else {
        idle(ids.drop_last(), running) + if includes(running, ids.last()) {
            seq![]
        } else {
            seq![ids.last()]
        }
    }
}

proof fn lemma_without_ids_unique(jobs: Seq<Progress>, gone: Seq<Seq<char>>)
    requires
        unique_ids(job_ids(jobs)),
    ensures
        unique_ids(job_ids(without_ids(jobs, gone))),
        forall|x: Seq<char>| #[trigger]
            includes(job_ids(without_ids(jobs, gone)), x) ==> includes(job_ids(jobs), x),
    decreases jobs.len(),
{
    if jobs.len() > 0 {
        let before = jobs.drop_last();
        assert forall|a: int, b: int| 0 <= a < b < job_ids(before).len() implies job_ids(before)[a]
            != job_ids(before)[b] by {
            assert(job_ids(before)[a] == job_ids(jobs)[a]);
            assert(job_ids(before)[b] == job_ids(jobs)[b]);
        }
        lemma_without_ids_unique(before, gone);
        let w = without_ids(jobs, gone);
        let wb = without_ids(before, gone);
        assert forall|x: Seq<char>| includes(job_ids(w), x) implies includes(job_ids(jobs), x) by {
            let k = choose|k: int| 0 <= k < job_ids(w).len() && job_ids(w)[k] == x;
            if k < wb.len() {
                assert(job_ids(wb)[k] == x);
                assert(includes(job_ids(wb), x));
                assert(job_ids(before).contains(x));
                let t = choose|t: int| 0 <= t < job_ids(before).len() && job_ids(before)[t] == x;
                assert(job_ids(before)[t] == before[t].id@);
                assert(before[t] == jobs[t]);
                assert(job_ids(jobs)[t] == jobs[t].id@);
                assert(job_ids(jobs)[t] == x);
            } else {
                assert(job_ids(jobs)[jobs.len() - 1] == x);
            }
        }
        assert forall|a: int, b: int| 0 <= a < b < job_ids(w).len() implies job_ids(w)[a]
            != job_ids(w)[b] by {
            if b == wb.len() {
                assert(job_ids(wb)[a] == job_ids(w)[a]);
                assert(includes(job_ids(wb), job_ids(w)[a]));
                let t = choose|t: int|
                    0 <= t < job_ids(before).len() && job_ids(before)[t] == job_ids(w)[a];
                assert(job_ids(jobs)[t] == job_ids(before)[t]);
                assert(job_ids(w)[b] == job_ids(jobs)[jobs.len() - 1]);
            } else {
                assert(job_ids(wb)[a] == job_ids(w)[a]);
                assert(job_ids(wb)[b] == job_ids(w)[b]);
            }
        }
    }
}

fn queued_progress(id: &str) -> (p: Progress)
    ensures
        queued(id@, p),
{
    Progress {
        id: id.to_owned(),
        phase: Phase::Queued,
        current: None,
        files_done: 0,
        files_total: 0,
        bytes_done: 0,
        bytes_total: None,
        note: None,
    }
}

/// The text of a refusal.
pub fn refusal_message(why: Refusal) -> (r: &'static str)
    ensures
        r@ == refusal_text(why),
{
    match why {
        Refusal::Busy => "Those families are already downloading",
        Refusal::Present => "Everything selected is already downloaded",
        Refusal::Offline => "Offline: font downloads are unavailable",
        Refusal::NoDirectory => "No user configuration directory",
    }
}

fn note_for(s: &Summary) -> (r: String)
    ensures
        r@ == settled_note(*s),
{
    let mut out = String::new();
    if s.failed.len() > 0 {
        push_str(&mut out, s.failed[0].0.as_str());
        push_str(&mut out, ": ");
        push_str(&mut out, s.failed[0].1.as_str());
    } else if s.cancelled.len() > 0 {
        push_str(&mut out, s.cancelled[0].as_str());
        push_str(&mut out, ": cancelled");
    } else if s.stored > 0 {
        push_decimal(&mut out, s.stored);
        push_str(&mut out, " files stored, ");
        push_decimal(&mut out, s.bytes / (1024 * 1024));
        push_str(&mut out, " MiB");
    } else {
        push_str(&mut out, "Nothing to download");
    }
    assert(out@ =~= settled_note(*s));
    out
}

/// A progress report replaces its family's job: afterwards the report
/// itself is followed, it is the only job with its id, every job of another
/// family is still there, and the strip grows only when the family was not
/// followed yet.
pub proof fn a_report_replaces_its_familys_job(jobs: Seq<Progress>, p: Progress)
    requires
        unique_ids(job_ids(jobs)),
    ensures
        reported(jobs, p).contains(p),
        forall|t: int|
            0 <= t < reported(jobs, p).len() && #[trigger] reported(jobs, p)[t].id@ == p.id@
                ==> reported(jobs, p)[t] == p,
        forall|k: int|
            0 <= k < jobs.len() && jobs[k].id@ != p.id@ ==> reported(jobs, p).contains(
                #[trigger] jobs[k],
            ),
        unique_ids(job_ids(reported(jobs, p))),
        reported(jobs, p).len() == if job_ids(jobs).contains(p.id@) {
            jobs.len()
        } else {
            jobs.len() + 1
        },
{
    let ids = job_ids(jobs);
    let r = reported(jobs, p);
    crate::styles::lemma_first_index(ids, p.id@);
    match index_in(ids, p.id@) {
        Some(i) => {
            assert(r[i] == p);
            assert(ids[i] == p.id@);
            assert(ids.contains(p.id@));
            assert forall|t: int| 0 <= t < r.len() && #[trigger] r[t].id@ == p.id@ implies r[t]
                == p by {
                if t != i {
                    assert(ids[t] == jobs[t].id@);
                    assert(ids[t] != ids[i]);
                }
            }
            assert forall|k: int| 0 <= k < jobs.len() && jobs[k].id@ != p.id@ implies r.contains(
                #[trigger] jobs[k],
            ) by {
                assert(k != i);
                assert(r[k] == jobs[k]);
            }
            assert(job_ids(r) =~= ids.update(i, p.id@));
            assert forall|a: int, b: int| 0 <= a < b < job_ids(r).len() implies job_ids(r)[a]
                != job_ids(r)[b] by {
                assert(ids[a] == jobs[a].id@);
                assert(ids[b] == jobs[b].id@);
            }
        },
        None => {
            assert(r[jobs.len() as int] == p);
            assert(!ids.contains(p.id@)) by {
                if ids.contains(p.id@) {
                    let j = choose|j: int| 0 <= j < ids.len() && ids[j] == p.id@;
                    assert(ids[j] != p.id@);
                }
            }
            assert forall|t: int| 0 <= t < r.len() && #[trigger] r[t].id@ == p.id@ implies r[t]
                == p by {
                if t < jobs.len() {
                    assert(ids[t] == jobs[t].id@);
                }
            }
            assert forall|k: int| 0 <= k < jobs.len() && jobs[k].id@ != p.id@ implies r.contains(
                #[trigger] jobs[k],
            ) by {
                assert(r[k] == jobs[k]);
            }
            assert(job_ids(r) =~= ids.push(p.id@));
            assert forall|a: int, b: int| 0 <= a < b < job_ids(r).len() implies job_ids(r)[a]
                != job_ids(r)[b] by {
                if b == jobs.len() {
                    assert(ids[a] == jobs[a].id@);
                }
            }
        },
    }
}

/// Settling a run stops following exactly the run's families: a job for a
/// family in the run is gone, and every other job is still there.
pub proof fn settling_keeps_other_jobs(jobs: Seq<Progress>, gone: Seq<Seq<char>>, k: int)
    requires
        0 <= k < jobs.len(),
    ensures
        gone.contains(jobs[k].id@) ==> forall|t: int|
            0 <= t < without_ids(jobs, gone).len() ==> without_ids(jobs, gone)[t].id@ != jobs[k].id@,
        !gone.contains(jobs[k].id@) ==> without_ids(jobs, gone).contains(jobs[k]),
{
    lemma_without_ids_members(jobs, gone);
    if !includes(gone, jobs[k].id@) {
        lemma_without_ids_keeps(jobs, gone, k);
    }
}

proof fn lemma_without_ids_members(jobs: Seq<Progress>, gone: Seq<Seq<char>>)
    ensures
        forall|t: int|
            0 <= t < without_ids(jobs, gone).len() ==> !includes(gone, #[trigger] without_ids(jobs, gone)[t].id@),
    decreases jobs.len(),
{
    if jobs.len() > 0 {
        lemma_without_ids_members(jobs.drop_last(), gone);
        let wb = without_ids(jobs.drop_last(), gone);
        assert forall|t: int|
            0 <= t < without_ids(jobs, gone).len() implies !includes(
            gone,
            #[trigger] without_ids(jobs, gone)[t].id@,
        ) by {
            if t < wb.len() {
                assert(without_ids(jobs, gone)[t] == wb[t]);
            }
        }
    }
}

proof fn lemma_without_ids_keeps(jobs: Seq<Progress>, gone: Seq<Seq<char>>, k: int)
    requires
        0 <= k < jobs.len(),
        !includes(gone, jobs[k].id@),
    ensures
        without_ids(jobs, gone).contains(jobs[k]),
    decreases jobs.len(),
{
    let w = without_ids(jobs, gone);
    let wb = without_ids(jobs.drop_last(), gone);
    if k < jobs.len() - 1 {
        assert(jobs.drop_last()[k] == jobs[k]);
        lemma_without_ids_keeps(jobs.drop_last(), gone, k);
        let t = choose|t: int| 0 <= t < wb.len() && wb[t] == jobs[k];
        assert(w[t] == wb[t]);
    } else {
        assert(w[wb.len() as int] == jobs[k]);
    }
}

proof fn lemma_shown_upto(
    catalog: Seq<Family>,
    source: Option<Seq<char>>,
    status: Option<FontState>,
    n: int,
)
    requires
        0 <= n <= catalog.len(),
        catalog.len() <= usize::MAX,
    ensures
        forall|t: int|
            0 <= t < shown_upto(catalog, source, status, n).len() ==> (#[trigger] shown_upto(
                catalog,
                source,
                status,
                n,
            )[t] as int) < n,
        forall|a: int, b: int|
            0 <= a < b < shown_upto(catalog, source, status, n).len() ==> #[trigger] shown_upto(
                catalog,
                source,
                status,
                n,
            )[a] < #[trigger] shown_upto(catalog, source, status, n)[b],
        forall|i: int|
            0 <= i < n ==> (shown_upto(catalog, source, status, n).contains(i as usize) <==> passes(
                #[trigger] catalog[i],
                source,
                status,
            )),
    decreases n,
{
    if n > 0 {
        lemma_shown_upto(catalog, source, status, n - 1);
        let before = shown_upto(catalog, source, status, n - 1);
        let now = shown_upto(catalog, source, status, n);
        assert forall|t: int| 0 <= t < before.len() implies now[t] == before[t] by {}
        assert forall|i: int| 0 <= i < n implies (now.contains(i as usize) <==> passes(
            #[trigger] catalog[i],
            source,
            status,
        )) by {
            if i < n - 1 {
                if before.contains(i as usize) {
                    let t = choose|t: int| 0 <= t < before.len() && before[t] == i as usize;
                    assert(now[t] == i as usize);
                }
                if now.contains(i as usize) {
                    let t = choose|t: int| 0 <= t < now.len() && now[t] == i as usize;
                    if t < before.len() {
                        assert(before[t] == i as usize);
                    }
                }
            } else {
                if passes(catalog[n - 1], source, status) {
                    assert(now[before.len() as int] == (n - 1) as usize);
                } else {
                    assert(now =~= before);
                    if now.contains(i as usize) {
                        let t = choose|t: int| 0 <= t < now.len() && now[t] == i as usize;
                        assert(before[t] < n - 1);
                    }
                }
            }
        }
    }
}

/// The page shows exactly the families that pass both filters, each once,
/// in catalogue order.
pub proof fn the_page_shows_exactly_what_passes(
    catalog: Seq<Family>,
    source: Option<Seq<char>>,
    status: Option<FontState>,
)
    requires
        catalog.len() <= usize::MAX,
    ensures
        forall|i: int|
            0 <= i < catalog.len() ==> (shown_upto(
                catalog,
                source,
                status,
                catalog.len() as int,
            ).contains(i as usize) <==> passes(#[trigger] catalog[i], source, status)),
        forall|a: int, b: int|
            0 <= a < b < shown_upto(catalog, source, status, catalog.len() as int).len()
                ==> #[trigger] shown_upto(catalog, source, status, catalog.len() as int)[a]
                < #[trigger] shown_upto(catalog, source, status, catalog.len() as int)[b],
        forall|t: int|
            0 <= t < shown_upto(catalog, source, status, catalog.len() as int).len() ==> (
            #[trigger] shown_upto(catalog, source, status, catalog.len() as int)[t] as int)
                < catalog.len(),
        source is None && status is None ==> shown_upto(
            catalog,
            source,
            status,
            catalog.len() as int,
        ).len() == catalog.len(),
{
    lemma_shown_upto(catalog, source, status, catalog.len() as int);
    if source is None && status is None {
        lemma_shown_all(catalog, catalog.len() as int);
    }
}

proof fn lemma_shown_all(catalog: Seq<Family>, n: int)
    requires
        0 <= n <= catalog.len(),
    ensures
        shown_upto(catalog, None, None, n).len() == n,
    decreases n,
{
    if n > 0 {
        lemma_shown_all(catalog, n - 1);
    }
}

/// A request starts exactly the families it names that no job follows yet.
pub proof fn only_idle_families_start(ids: Seq<Seq<char>>, running: Seq<Seq<char>>, x: Seq<char>)
    ensures
        idle(ids, running).contains(x) <==> ids.contains(x) && !running.contains(x),
        idle(ids, running).len() <= ids.len(),
    decreases ids.len(),
{
    if ids.len() > 0 {
        only_idle_families_start(ids.drop_last(), running, x);
        let b = idle(ids.drop_last(), running);
        let r = idle(ids, running);
        if r.contains(x) {
            let t = choose|t: int| 0 <= t < r.len() && r[t] == x;
            if t < b.len() {
                assert(b[t] == x);
                assert(b.contains(x));
                let j = choose|j: int| 0 <= j < ids.drop_last().len() && ids.drop_last()[j] == x;
                assert(ids[j] == x);
            } else {
                assert(ids[ids.len() - 1] == x);
            }
        }
        if ids.contains(x) && !running.contains(x) {
            let j = choose|j: int| 0 <= j < ids.len() && ids[j] == x;
            if j < ids.len() - 1 {
                assert(ids.drop_last()[j] == x);
                assert(b.contains(x));
                let t = choose|t: int| 0 <= t < b.len() && b[t] == x;
                assert(r[t] == x);
            } else {
                assert(r[b.len() as int] == x);
            }
        }
    }
}

} // verus!
