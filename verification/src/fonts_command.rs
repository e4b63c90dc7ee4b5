//! The `markview fonts` commands: which families a download asks for, and
//! the lines `list`, `verify` and `download` print. Reading the declarations
//! and the download directory is the caller's part.
use vstd::prelude::*;
use crate::fonts::{command_bytes_label, command_bytes_text, command_state_label, command_state_text, Family, FontState};
use crate::font_panel::includes;
use crate::styles::texts;
use crate::text::{decimal, push_decimal, push_str};

verus! {

/// Which of the selected families a download fetches.
#[derive(Clone, Copy, Debug, PartialEq, Eq, Structural)]
pub enum Scope {
    /// Every one, present or not.
    All,
    /// Only those that are missing.
    Missing,
    /// The named ones, even where an installed face covers them.
    Named,
}

/// Why a download is refused before anything is fetched.
#[derive(Debug, PartialEq, Eq)]
pub enum DownloadError {
    Offline,
    /// A named family no declaration offers.
    UnknownFamily(String),
}

/// What `{:?}` writes for a string: the text in double quotes, with quotes,
/// backslashes and unprintable characters escaped.
pub uninterp spec fn debug_quoted(s: Seq<char>) -> Seq<char>;

/// `format!("{:?}", s)`: std's `Debug` for `str`. Its result is named, not
/// stated; it depends on `s` alone.
#[verifier::external_body]
fn quoted(s: &str) -> (r: String)
    ensures
        r@ == debug_quoted(s@),
{
    format!("{s:?}")
}

/// What the command line says of a refused download.
pub open spec fn download_error_text(e: DownloadError) -> Seq<char> {
    match e {
        DownloadError::Offline => "Offline: font downloads are unavailable; run without --offline"@,
        DownloadError::UnknownFamily(id) => "No font family named "@ + debug_quoted(id@),
    }
}

impl DownloadError {
    /// What the command line prints for the refusal.
    pub fn message(&self) -> (r: String)
        ensures
            r@ == download_error_text(*self),
    {
        match self {
            DownloadError::Offline => {
                "Offline: font downloads are unavailable; run without --offline".to_owned()
            },
            DownloadError::UnknownFamily(id) => {
                let mut out = String::new();
                push_str(&mut out, "No font family named ");
                let q = quoted(id.as_str());
                push_str(&mut out, q.as_str());
                out
            },
        }
    }
}

/// The first requested id the catalogue does not offer.
pub open spec fn first_unknown(requested: Seq<Seq<char>>, offered: Seq<Seq<char>>) -> Option<
    Seq<char>,
>
    decreases requested.len(),
{
    if requested.len() == 0 {
        None
    } else if !includes(offered, requested[0]) {
        Some(requested[0])
    } else {
        first_unknown(requested.drop_first(), offered)
    }
}

/// What a download asks for: a refusal, or the ids to select among and the
/// scope to select with. The declarations are local, so a dry run works
/// offline; naming no family asks for every missing one, naming some asks for
/// those, and `force` fetches again what is present.
pub open spec fn plan_of(
    offered: Seq<Seq<char>>,
    requested: Seq<Seq<char>>,
    force: bool,
    dry_run: bool,
    offline: bool,
) -> Result<(Seq<Seq<char>>, Scope), Option<Seq<char>>> {
    if offline && !dry_run {
        Err(None)
    } else {
        match first_unknown(requested, offered) {
            Some(id) => Err(Some(id)),
            None => Ok(
                (
                    if requested.len() == 0 {
                        offered
                    } else {
                        requested
                    },
                    if force {
                        Scope::All
                    } else if requested.len() == 0 {
                        Scope::Missing
                    } else {
                        Scope::Named
                    },
                ),
            ),
        }
    }
}

pub(crate) fn copy_texts(list: &[String]) -> (r: Vec<String>)
    ensures
        texts(r@) == texts(list@),
{
    let mut out: Vec<String> = Vec::new();
    let mut i: usize = 0;
    while i < list.len()
        invariant
            i <= list@.len(),
            texts(out@) == texts(list@).take(i as int),
        decreases list.len() - i,
    {
        let ghost before = out@;
        let item = list[i].clone();
        out.push(item);
        proof {
            assert(item == list@[i as int]);
            assert(out@ == before.push(item));
            assert(texts(out@) =~= texts(before).push(item@));
            assert(texts(list@).take(i + 1) =~= texts(list@).take(i as int).push(list@[i as int]@));
            assert(texts(out@) =~= texts(list@).take(i + 1));
        }
        i = i + 1;
    }
    proof {
        assert(texts(list@).take(list@.len() as int) =~= texts(list@));
    }
    out
}

fn contains_id(list: &[String], x: &str) -> (r: bool)
    ensures
        r == includes(texts(list@), x@),
{
    match crate::styles::find_id(list, x) {
        Some(_) => {
            proof {
                crate::styles::lemma_first_index(texts(list@), x@);
            }
            true
        },
        None => {
            proof {
                crate::styles::lemma_first_index(texts(list@), x@);
            }
            false
        },
    }
}

/// Checks a download request against the catalogue's ids (`offered`) and
/// says what to select.
pub fn download_plan(
    offered: &[String],
    requested: &[String],
    force: bool,
    dry_run: bool,
    offline: bool,
) -> (r: Result<(Vec<String>, Scope), DownloadError>)
    ensures
        (match r {
            Ok((ids, scope)) => Ok((texts(ids@), scope)),
            Err(DownloadError::Offline) => Err(None),
            Err(DownloadError::UnknownFamily(id)) => Err(Some(id@)),
        }) == plan_of(texts(offered@), texts(requested@), force, dry_run, offline),
{
    if offline && !dry_run {
        return Err(DownloadError::Offline);
    }
    let ghost all = texts(requested@);
    let mut i: usize = 0;
    proof {
        assert(all.skip(0) =~= all);
    }
    while i < requested.len()
        invariant
            i <= requested@.len(),
            all == texts(requested@),
            !(offline && !dry_run),
            first_unknown(all, texts(offered@)) == first_unknown(all.skip(i as int), texts(offered@)),
        decreases requested.len() - i,
    {
        proof {
            assert(all.skip(i as int).drop_first() =~= all.skip(i + 1));
            assert(all.skip(i as int)[0] == requested@[i as int]@);
        }
        if !contains_id(offered, requested[i].as_str()) {
            let id = requested[i].clone();
            proof {
                assert(id@ == all.skip(i as int)[0]);
            }
            return Err(DownloadError::UnknownFamily(id));
        }
        i = i + 1;
    }
    proof {
        assert(all.skip(i as int) =~= seq![]);
    }
    let ids = if requested.len() == 0 {
        copy_texts(offered)
    } else {
        copy_texts(requested)
    };
    let scope = if force {
        Scope::All
    } else if requested.len() == 0 {
        Scope::Missing
    } else {
        Scope::Named
    };
    Ok((ids, scope))
}

/// `n` spaces.
pub open spec fn spaces(n: int) -> Seq<char> {
    Seq::new(if n > 0 { n as nat } else { 0 }, |i: int| ' ')
}

/// `s` padded with spaces on the right to `width` characters, as `{:<width}`.
pub open spec fn left_aligned(s: Seq<char>, width: int) -> Seq<char> {
    s + spaces(width - s.len())
}

/// `s` padded with spaces on the left to `width` characters, as `{:>width}`.
pub open spec fn right_aligned(s: Seq<char>, width: int) -> Seq<char> {
    spaces(width - s.len()) + s
}

fn push_spaces(out: &mut String, n: usize)
    ensures
        final(out)@ == old(out)@ + spaces(n as int),
{
    let mut i: usize = 0;
    while i < n
        invariant
            i <= n,
            out@ == old(out)@ + spaces(i as int),
        decreases n - i,
    {
        crate::text::push_char(out, ' ');
        proof {
            assert(out@ =~= old(out)@ + spaces(i + 1));
        }
        i = i + 1;
    }
}

fn push_left(out: &mut String, s: &str, width: usize)
    ensures
        final(out)@ == old(out)@ + left_aligned(s@, width as int),
{
    push_str(out, s);
    let n = s.unicode_len();
    if n < width {
        push_spaces(out, width - n);
    } else {
        proof {
            assert(spaces(width - n) =~= seq![]);
        }
    }
    proof {
        assert(out@ =~= old(out)@ + left_aligned(s@, width as int));
    }
}

fn push_right(out: &mut String, s: &str, width: usize)
    ensures
        final(out)@ == old(out)@ + right_aligned(s@, width as int),
{
    let n = s.unicode_len();
    if n < width {
        push_spaces(out, width - n);
    } else {
        proof {
            assert(spaces(width - n) =~= seq![]);
        }
    }
    push_str(out, s);
    proof {
        assert(out@ =~= old(out)@ + right_aligned(s@, width as int));
    }
}

/// The families `list` prints: all of them with `--all`, else the missing
/// ones, in catalogue order.
pub open spec fn listed(catalog: Seq<Family>, all: bool, n: int) -> Seq<usize>
    decreases n,
{
    if n <= 0 {
        seq![]
    } else {
        listed(catalog, all, n - 1) + if all || catalog[n - 1].state == FontState::Missing {
            seq![(n - 1) as usize]
        } else {
            seq![]
        }
    }
}

/// The catalogue positions `list` prints.
pub fn list_rows(catalog: &[Family], all: bool) -> (r: Vec<usize>)
    ensures
        r@ == listed(catalog@, all, catalog@.len() as int),
{
    let mut out: Vec<usize> = Vec::new();
    let mut i: usize = 0;
    while i < catalog.len()
        invariant
            i <= catalog@.len(),
            out@ == listed(catalog@, all, i as int),
        decreases catalog.len() - i,
    {
        if all || catalog[i].state == FontState::Missing {
            out.push(i);
        }
        proof {
            assert(out@ =~= listed(catalog@, all, i + 1));
        }
        i = i + 1;
    }
    out
}

/// One line of `list`: id, state, size, display name, license (`-` when
/// there is none) and the sheets that declare the family.
pub open spec fn list_text(f: Family, display_name: Seq<char>) -> Seq<char> {
    left_aligned(f.id@, 22) + " "@ + left_aligned(command_state_text(f.state), 10) + " "@
        + right_aligned(command_bytes_text(f.bytes as nat), 9) + "  "@ + left_aligned(
        display_name,
        28,
    ) + " "@ + left_aligned(
        match f.license {
            Some(l) => l@,
            None => "-"@,
        },
        10,
    ) + " "@ + crate::fonts::joined(texts(f.owners@), ", "@) + "\n"@
}

/// One line of `list` for a family and the name it is shown under.
pub fn list_line(family: &Family, display_name: &str) -> (r: String)
    ensures
        r@ == list_text(*family, display_name@),
{
    let mut out = String::new();
    push_left(&mut out, family.id.as_str(), 22);
    push_str(&mut out, " ");
    push_left(&mut out, command_state_label(family.state), 10);
    push_str(&mut out, " ");
    let size = command_bytes_label(family.bytes);
    push_right(&mut out, size.as_str(), 9);
    push_str(&mut out, "  ");
    push_left(&mut out, display_name, 28);
    push_str(&mut out, " ");
    match &family.license {
        Some(l) => push_left(&mut out, l.as_str(), 10),
        None => push_left(&mut out, "-", 10),
    }
    push_str(&mut out, " ");
    let mut owners = String::new();
    crate::fonts::push_joined(&mut owners, &family.owners, ", ");
    push_str(&mut out, owners.as_str());
    push_str(&mut out, "\n");
    proof {
        assert(family.owners@.map_values(|x: String| x@) =~= texts(family.owners@));
    }
    assert(out@ =~= list_text(*family, display_name@));
    out
}

/// The line `list` closes with: the directory, how many families the
/// catalogue holds, and what the directory takes.
pub open spec fn directory_text(dir: Seq<char>, families: nat, total: nat) -> Seq<char> {
    dir + ": "@ + decimal(families) + " families, "@ + command_bytes_text(total) + " on disk\n"@
}

pub fn directory_line(dir: &str, families: u64, total: u64) -> (r: String)
    ensures
        r@ == directory_text(dir@, families as nat, total as nat),
{
    let mut out = String::new();
    push_str(&mut out, dir);
    push_str(&mut out, ": ");
    push_decimal(&mut out, families);
    push_str(&mut out, " families, ");
    let size = command_bytes_label(total);
    push_str(&mut out, size.as_str());
    push_str(&mut out, " on disk\n");
    assert(out@ =~= directory_text(dir@, families as nat, total as nat));
    out
}

/// What `verify` says of one family, and whether it is a problem.
pub open spec fn verify_text(f: Family) -> Seq<char> {
    left_aligned(f.id@, 22) + " "@ + match f.state {
        FontState::Downloaded => command_bytes_text(f.bytes as nat) + " on disk"@,
        FontState::Provided => "installed"@,
        FontState::Missing => "missing"@,
    } + "\n"@
}

/// One line of `verify`; a missing family is a problem.
pub fn verify_line(family: &Family) -> (r: (String, bool))
    ensures
        r.0@ == verify_text(*family),
        r.1 == (family.state == FontState::Missing),
{
    let mut out = String::new();
    push_left(&mut out, family.id.as_str(), 22);
    push_str(&mut out, " ");
    let problem = match family.state {
        FontState::Downloaded => {
            let size = command_bytes_label(family.bytes);
            push_str(&mut out, size.as_str());
            push_str(&mut out, " on disk");
            false
        },
        FontState::Provided => {
            push_str(&mut out, "installed");
            false
        },
        FontState::Missing => {
            push_str(&mut out, "missing");
            true
        },
    };
    push_str(&mut out, "\n");
    assert(out@ =~= verify_text(*family));
    (out, problem)
}

/// The files of the download directory that no readable font accounts
/// for: every name but temporary downloads and those `described` names, in
/// the order given.
pub open spec fn unreadable(names: Seq<Seq<char>>, described: Seq<Seq<char>>) -> Seq<Seq<char>>
    decreases names.len(),
{
    if names.len() == 0 {
        seq![]
    } else {
        let last = names.last();
        unreadable(names.drop_last(), described) + if ".tmp"@.is_suffix_of(last) || includes(
            described,
            last,
        ) {
            seq![]
        } else {
            seq![last]
        }
    }
}

fn ends_with(s: &str, tail: &str) -> (r: bool)
    ensures
        r == tail@.is_suffix_of(s@),
{
    let n = s.unicode_len();
    let m = tail.unicode_len();
    if m > n {
        return false;
    }
    let mut i: usize = 0;
    while i < m
        invariant
            n == s@.len(),
            m == tail@.len(),
            m <= n,
            i <= m,
            forall|k: int| 0 <= k < i ==> tail@[k] == s@[n - m + k],
        decreases m - i,
    {
        if tail.get_char(i) != s.get_char(n - m + i) {
            return false;
        }
        i = i + 1;
    }
    assert(s@.subrange(n - m, n as int) =~= tail@);
    true
}

/// The directory's files that are not readable fonts.
pub fn unreadable_files(names: &[String], described: &[String]) -> (r: Vec<String>)
    ensures
        texts(r@) == unreadable(texts(names@), texts(described@)),
{
    let ghost all = texts(names@);
    let mut out: Vec<String> = Vec::new();
    let mut i: usize = 0;
    while i < names.len()
        invariant
            i <= names@.len(),
            all == texts(names@),
            texts(out@) == unreadable(all.take(i as int), texts(described@)),
        decreases names.len() - i,
    {
        proof {
            assert(all.take(i + 1).drop_last() =~= all.take(i as int));
            assert(all.take(i + 1).last() == names@[i as int]@);
        }
        if !(ends_with(names[i].as_str(), ".tmp") || contains_id(described, names[i].as_str())) {
            out.push(names[i].clone());
        }
        proof {
            assert(texts(out@) =~= unreadable(all.take(i + 1), texts(described@)));
        }
        i = i + 1;
    }
    proof {
        assert(all.take(names@.len() as int) =~= all);
    }
    out
}

/// The names of the download directory's files, in the order given.
pub open spec fn file_names(files: Seq<(String, u64)>) -> Seq<Seq<char>> {
    files.map_values(|f: (String, u64)| f.0@)
}

/// The bytes the download directory's files take together.
pub open spec fn total_size(files: Seq<(String, u64)>) -> nat
    decreases files.len(),
{
    if files.len() == 0 {
        0
    } else {
        total_size(files.drop_last()) + files.last().1 as nat
    }
}

/// The files no catalogue family claims: every name but hidden ones (those
/// starting with `.`) and the `claimed` file names, in the order given.
pub open spec fn unclaimed(names: Seq<Seq<char>>, claimed: Seq<Seq<char>>) -> Seq<Seq<char>>
    decreases names.len(),
{
    if names.len() == 0 {
        seq![]
    } else {
        let last = names.last();
        unclaimed(names.drop_last(), claimed) + if (last.len() > 0 && last[0] == '.') || includes(
            claimed,
            last,
        ) {
            seq![]
        } else {
            seq![last]
        }
    }
}

/// What the download directory takes: the size of all its `files` (name and
/// size in bytes, as listed), and the names no family of the catalogue
/// claims. The sizes must add up within `u64`.
pub fn occupancy(files: &[(String, u64)], claimed: &[String]) -> (r: (u64, Vec<String>))
    requires
        total_size(files@) <= u64::MAX,
    ensures
        r.0 == total_size(files@),
        texts(r.1@) == unclaimed(file_names(files@), texts(claimed@)),
{
    let ghost all = file_names(files@);
    let mut total: u64 = 0;
    let mut out: Vec<String> = Vec::new();
    let mut i: usize = 0;
    while i < files.len()
        invariant
            i <= files@.len(),
            all == file_names(files@),
            total_size(files@) <= u64::MAX,
            total == total_size(files@.take(i as int)),
            texts(out@) == unclaimed(all.take(i as int), texts(claimed@)),
        decreases files.len() - i,
    {
        proof {
            assert(files@.take(i + 1).drop_last() =~= files@.take(i as int));
            assert(all.take(i + 1).drop_last() =~= all.take(i as int));
            assert(all.take(i + 1).last() == files@[i as int].0@);
            lemma_total_size_prefix(files@, i + 1);
        }
        total = total + files[i].1;
        let name = files[i].0.as_str();
        let hidden = name.unicode_len() > 0 && name.get_char(0) == '.';
        if !(hidden || contains_id(claimed, name)) {
            out.push(files[i].0.clone());
        }
        proof {
            assert(texts(out@) =~= unclaimed(all.take(i + 1), texts(claimed@)));
        }
        i = i + 1;
    }
    proof {
        assert(files@.take(files@.len() as int) =~= files@);
        assert(all.take(files@.len() as int) =~= all);
    }
    (total, out)
}

proof fn lemma_total_size_prefix(files: Seq<(String, u64)>, n: int)
    requires
        0 <= n <= files.len(),
    ensures
        total_size(files.take(n)) <= total_size(files),
    decreases files.len() - n,
{
    if n < files.len() {
        lemma_total_size_prefix(files, n + 1);
        assert(files.take(n + 1).drop_last() =~= files.take(n));
    } else {
        assert(files.take(n) =~= files);
    }
}

/// How `verify` ends when it found problems.
pub open spec fn problems_text(n: nat) -> Seq<char> {
    decimal(n) + " font problem(s)"@
}

pub fn problems_message(n: u64) -> (r: String)
    ensures
        r@ == problems_text(n as nat),
{
    let mut out = String::new();
    push_decimal(&mut out, n);
    push_str(&mut out, " font problem(s)");
    out
}

/// The line a download ends with.
pub open spec fn download_text(stored: nat, bytes: nat, failed: nat, cancelled: nat) -> Seq<char> {
    decimal(stored) + " families stored, "@ + command_bytes_text(bytes) + " downloaded, "@
        + decimal(failed) + " failed, "@ + decimal(cancelled) + " cancelled\n"@
}

pub fn download_line(stored: u64, bytes: u64, failed: u64, cancelled: u64) -> (r: String)
    ensures
        r@ == download_text(stored as nat, bytes as nat, failed as nat, cancelled as nat),
{
    let mut out = String::new();
    push_decimal(&mut out, stored);
    push_str(&mut out, " families stored, ");
    let size = command_bytes_label(bytes);
    push_str(&mut out, size.as_str());
    push_str(&mut out, " downloaded, ");
    push_decimal(&mut out, failed);
    push_str(&mut out, " failed, ");
    push_decimal(&mut out, cancelled);
    push_str(&mut out, " cancelled\n");
    assert(out@ =~= download_text(stored as nat, bytes as nat, failed as nat, cancelled as nat));
    out
}

} // verus!
