//! The Fonts page and the `fonts` commands: what each downloadable family is,
//! what state it is in, and the lines that say so.
use vstd::prelude::*;
use crate::text::{decimal, push_char, push_decimal, push_str};

verus! {

/// Whether a family's files are there.
#[derive(Clone, Copy, Debug, PartialEq, Eq, Structural)]
pub enum FontState {
    /// Downloaded into the reader's own font directory.
    Downloaded,
    /// Installed on the machine.
    Provided,
    /// Neither.
    Missing,
}

/// Where one family's download stands.
#[derive(Clone, Copy, Debug, PartialEq, Eq, Structural)]
pub enum Phase {
    Queued,
    Downloading,
    Extracting,
    Done,
    Failed,
    Cancelled,
}

/// One downloadable family, as the catalogue lists it.
pub struct Family {
    pub id: String,
    pub description: Option<String>,
    pub license: Option<String>,
    /// The stylesheets that declare it.
    pub owners: Vec<String>,
    pub state: FontState,
    /// What its files take on disk.
    pub bytes: u64,
}

/// One family's running download.
pub struct Progress {
    pub id: String,
    pub phase: Phase,
    /// The file being fetched or unpacked.
    pub current: Option<String>,
    pub files_done: u64,
    pub files_total: u64,
    pub bytes_done: u64,
    pub bytes_total: Option<u64>,
    pub note: Option<String>,
}

/// The state badge a family shows on the Fonts page.
pub fn state_label(state: FontState) -> (r: &'static str)
    ensures
        r@ == page_state_text(state),
{
    match state {
        FontState::Downloaded => "On disk",
        FontState::Provided => "Installed",
        FontState::Missing => "Missing",
    }
}

pub open spec fn page_state_text(state: FontState) -> Seq<char> {
    match state {
        FontState::Downloaded => "On disk"@,
        FontState::Provided => "Installed"@,
        FontState::Missing => "Missing"@,
    }
}

/// The state word `markview fonts list` prints.
pub fn command_state_label(state: FontState) -> (r: &'static str)
    ensures
        r@ == command_state_text(state),
{
    match state {
        FontState::Downloaded => "on disk",
        FontState::Provided => "installed",
        FontState::Missing => "missing",
    }
}

pub open spec fn command_state_text(state: FontState) -> Seq<char> {
    match state {
        FontState::Downloaded => "on disk"@,
        FontState::Provided => "installed"@,
        FontState::Missing => "missing"@,
    }
}

/// `2^k`.
pub open spec fn two_to(k: nat) -> nat
    decreases k,
{
    if k == 0 {
        1
    } else {
        2 * two_to((k - 1) as nat)
    }
}

/// `num / den` rounded to the nearest integer, a tie going to the even one.
pub open spec fn round_half_even(num: nat, den: nat) -> nat
    recommends
        den > 0,
{
    let q = num / den;
    let r = num % den;
    if 2 * r > den {
        q + 1
    } else if 2 * r < den {
        q
    } else if q % 2 == 0 {
        q
    } else {
        q + 1
    }
}

/// `n` rounded to 53 significant bits, half to even: the value `n as f64`
/// holds. `s` counts the low bits dropped so far.
pub open spec fn float_at(n: nat, s: nat) -> nat
    decreases 64 - s,
{
    if s >= 64 || n < two_to(53 + s) {
        round_half_even(n, two_to(s)) * two_to(s)
    } else {
        float_at(n, s + 1)
    }
}

/// The value of `n as f64`.
pub open spec fn as_float(n: nat) -> nat {
    float_at(n, 0)
}

/// Tenths of a mebibyte in `bytes as f64 / (1024.0 * 1024.0)`, rounded the way
/// `{:.1}` rounds: to the nearest tenth, a tie going to the even one.
pub open spec fn mib_tenths(bytes: nat) -> nat {
    round_half_even(as_float(bytes) * 10, two_to(20))
}

/// `{:.1} MiB` of a byte count.
pub open spec fn mib_text(bytes: nat) -> Seq<char> {
    let t = mib_tenths(bytes);
    decimal(t / 10) + "."@ + decimal(t % 10) + " MiB"@
}

/// The Fonts page's size: tenths of a mebibyte from one mebibyte up, whole
/// kibibytes below.
pub open spec fn page_bytes_text(bytes: nat) -> Seq<char> {
    if bytes >= 1024 * 1024 {
        mib_text(bytes)
    } else {
        decimal(bytes / 1024) + " KiB"@
    }
}

/// The command line's size: as the page, and bytes below one kibibyte.
pub open spec fn command_bytes_text(bytes: nat) -> Seq<char> {
    if bytes >= 1024 * 1024 {
        mib_text(bytes)
    } else if bytes >= 1024 {
        decimal(bytes / 1024) + " KiB"@
    } else {
        decimal(bytes) + " B"@
    }
}

proof fn lemma_two_to_53()
    ensures
        two_to(53) == 0x20_0000_0000_0000,
{
    reveal_with_fuel(two_to, 54);
}

proof fn lemma_two_to_20()
    ensures
        two_to(20) == 0x10_0000,
{
    reveal_with_fuel(two_to, 21);
}

proof fn lemma_two_to_64()
    ensures
        two_to(64) == 0x1_0000_0000_0000_0000,
{
    reveal_with_fuel(two_to, 65);
}

proof fn lemma_two_to_monotone(a: nat, b: nat)
    requires
        a <= b,
    ensures
        two_to(a) <= two_to(b),
        two_to(a) >= 1,
    decreases b,
{
    if b > 0 {
        if a < b {
            lemma_two_to_monotone(a, (b - 1) as nat);
        }
    }
    if a > 0 {
        lemma_two_to_monotone(0, (a - 1) as nat);
    }
}

/// `num / den` rounded half to even, for word-sized operands.
fn half_even(num: u128, den: u128) -> (r: u128)
    requires
        den > 0,
        num / den < u128::MAX,
    ensures
        r == round_half_even(num as nat, den as nat),
{
    let q = num / den;
    let rem = num % den;
    proof {
        assert(rem < den);
    }
    if rem > den - rem {
        q + 1
    } else if rem < den - rem {
        q
    } else if q % 2 == 0 {
        q
    } else {
        q + 1
    }
}

/// The value of `bytes as f64`, exactly.
fn float_value(bytes: u64) -> (r: u128)
    ensures
        r == as_float(bytes as nat),
        r <= 0x1_0000_0000_0000_0000,
{
    let mut s: u64 = 0;
    let mut den: u128 = 1;
    let mut bound: u128 = 0x20_0000_0000_0000;
    proof {
        lemma_two_to_53();
        lemma_two_to_64();
    }
    while (bytes as u128) >= bound
        invariant
            s <= 11,
            den == two_to(s as nat),
            bound == two_to(53 + s as nat),
            float_at(bytes as nat, s as nat) == as_float(bytes as nat),
            two_to(64) == 0x1_0000_0000_0000_0000,
            s >= 11 ==> bound == two_to(64),
        decreases 64 - s,
    {
        proof {
            if s >= 11 {
                assert(bytes < 0x1_0000_0000_0000_0000);
            }
            assert(s < 11);
            lemma_two_to_monotone(s as nat, 10);
            assert(two_to(10) == 1024) by {
                reveal_with_fuel(two_to, 11);
            }
            assert(two_to(53 + s as nat + 1) == 2 * two_to(53 + s as nat));
            assert(two_to(s as nat + 1) == 2 * two_to(s as nat));
            reveal_with_fuel(float_at, 2);
        }
        s = s + 1;
        den = den * 2;
        bound = bound * 2;
    }
    proof {
        reveal_with_fuel(float_at, 1);
        lemma_two_to_monotone(s as nat, 11);
        lemma_two_to_monotone(0, s as nat);
        assert(two_to(11) == 2048) by {
            reveal_with_fuel(two_to, 12);
        }
    }
    proof {
        assert(bound == two_to(53) * den) by {
            lemma_two_to_add(53, s as nat);
        }
        assert((bytes as u128) / den < two_to(53)) by (nonlinear_arith)
            requires
                (bytes as u128) < bound,
                bound == two_to(53) * den,
                den > 0,
        ;
    }
    let m = half_even(bytes as u128, den);
    proof {
        assert(m <= two_to(53));
        assert(m * den <= 0x1_0000_0000_0000_0000) by (nonlinear_arith)
            requires
                m <= two_to(53),
                den <= 2048,
                two_to(53) == 0x20_0000_0000_0000,
        ;
    }
    m * den
}

proof fn lemma_two_to_add(a: nat, b: nat)
    ensures
        two_to(a + b) == two_to(a) * two_to(b),
    decreases b,
{
    if b == 0 {
        assert(two_to(0) == 1);
        assert(a + b == a);
    } else {
        lemma_two_to_add(a, (b - 1) as nat);
        assert(two_to(a + b) == 2 * two_to((a + b - 1) as nat));
        assert(two_to(a) * two_to(b) == two_to(a) * (2 * two_to((b - 1) as nat)));
        assert(two_to(a) * (2 * two_to((b - 1) as nat)) == 2 * (two_to(a) * two_to(
            (b - 1) as nat,
        ))) by (nonlinear_arith);
    }
}

/// Appends `{:.1} MiB` of a byte count.
fn push_mib(s: &mut String, bytes: u64)
    ensures
        final(s)@ == old(s)@ + mib_text(bytes as nat),
{
    let v = float_value(bytes);
    proof {
        lemma_two_to_20();
    }
    let t = half_even(v * 10, 0x10_0000);
    proof {
        assert(t <= v * 10 / 0x10_0000 + 1);
        assert(v * 10 / 0x10_0000 <= 0x1_0000_0000_0000_0000 * 10 / 0x10_0000);
    }
    let whole = (t / 10) as u64;
    let tenth = (t % 10) as u64;
    push_decimal(s, whole);
    push_char(s, '.');
    push_decimal(s, tenth);
    push_str(s, " MiB");
    proof {
        assert(final(s)@ =~= old(s)@ + mib_text(bytes as nat)) by {
            assert(seq!['.'] =~= "."@) by {
                reveal_strlit(".");
            }
        }
    }
}

/// A size as the Fonts page shows it.
pub fn bytes_label(bytes: u64) -> (r: String)
    ensures
        r@ == page_bytes_text(bytes as nat),
{
    let mut s = String::new();
    if bytes >= 1024 * 1024 {
        push_mib(&mut s, bytes);
    } else {
        push_decimal(&mut s, bytes / 1024);
        push_str(&mut s, " KiB");
    }
    assert(s@ =~= page_bytes_text(bytes as nat));
    s
}

/// A size as the `fonts` commands print it.
pub fn command_bytes_label(bytes: u64) -> (r: String)
    ensures
        r@ == command_bytes_text(bytes as nat),
{
    let mut s = String::new();
    if bytes >= 1024 * 1024 {
        push_mib(&mut s, bytes);
    } else if bytes >= 1024 {
        push_decimal(&mut s, bytes / 1024);
        push_str(&mut s, " KiB");
    } else {
        push_decimal(&mut s, bytes);
        push_str(&mut s, " B");
    }
    assert(s@ =~= command_bytes_text(bytes as nat));
    s
}

/// `list` joined with `sep` between its items.
pub open spec fn joined(list: Seq<Seq<char>>, sep: Seq<char>) -> Seq<char>
    decreases list.len(),
{
    if list.len() == 0 {
        seq![]
    } else if list.len() == 1 {
        list[0]
    } else {
        joined(list.drop_last(), sep) + sep + list.last()
    }
}

/// Appends `list` joined with `sep`.
pub(crate) fn push_joined(s: &mut String, list: &Vec<String>, sep: &str)
    ensures
        final(s)@ == old(s)@ + joined(list@.map_values(|x: String| x@), sep@),
{
    let ghost start = s@;
    let ghost views = list@.map_values(|x: String| x@);
    let mut i: usize = 0;
    while i < list.len()
        invariant
            i <= list@.len(),
            views == list@.map_values(|x: String| x@),
            s@ == start + joined(views.take(i as int), sep@),
        decreases list.len() - i,
    {
        if i > 0 {
            push_str(s, sep);
        }
        push_str(s, list[i].as_str());
        proof {
            assert(views.take(i + 1).drop_last() =~= views.take(i as int));
            assert(views.take(i + 1).last() == list@[i as int]@);
            if i == 0 {
                assert(views.take(1) =~= seq![list@[0]@]);
            }
        }
        i = i + 1;
    }
    proof {
        assert(views.take(list@.len() as int) =~= views);
    }
}

/// How many of the `shown` positions name a missing family.
pub open spec fn missing_count(catalog: Seq<Family>, shown: Seq<usize>) -> nat
    decreases shown.len(),
{
    if shown.len() == 0 {
        0
    } else {
        missing_count(catalog, shown.drop_last()) + if catalog[shown.last() as int].state
            == FontState::Missing {
            1nat
        } else {
            0nat
        }
    }
}

/// What the whole catalogue takes on disk.
pub open spec fn total_bytes(catalog: Seq<Family>) -> nat
    decreases catalog.len(),
{
    if catalog.len() == 0 {
        0
    } else {
        total_bytes(catalog.drop_last()) + catalog.last().bytes as nat
    }
}

/// The Fonts page's summary line.
pub open spec fn summary(
    catalog: Seq<Family>,
    shown: Seq<usize>,
    note: Option<Seq<char>>,
    soft_total: u64,
) -> Seq<char> {
    match note {
        Some(n) => n,
        None => {
            let bytes = total_bytes(catalog);
            decimal(shown.len()) + " families, "@ + decimal(missing_count(catalog, shown))
                + " to download, "@ + page_bytes_text(bytes) + " on disk"@ + if bytes
                > soft_total {
                " — the font directory is large"@
            } else {
                seq![]
            }
        },
    }
}

/// The one line under the tab row: how many families are shown, how many of
/// them still need downloading, and what the catalogue takes on disk. Past
/// `soft_total` bytes the line says the directory is large; it never refuses a
/// download. A note stands in for the whole line.
pub fn summary_text(catalog: &[Family], shown: &[usize], note: Option<&str>, soft_total: u64) -> (r:
    String)
    requires
        forall|i: int| 0 <= i < shown@.len() ==> #[trigger] shown@[i] < catalog@.len(),
        total_bytes(catalog@) <= u64::MAX,
    ensures
        r@ == summary(
            catalog@,
            shown@,
            match note {
                Some(n) => Some(n@),
                None => None,
            },
            soft_total,
        ),
{
    if let Some(note) = note {
        return note.to_owned();
    }
    let mut bytes: u64 = 0;
    let mut i: usize = 0;
    while i < catalog.len()
        invariant
            i <= catalog@.len(),
            bytes == total_bytes(catalog@.take(i as int)),
            total_bytes(catalog@) <= u64::MAX,
        decreases catalog.len() - i,
    {
        proof {
            assert(catalog@.take(i + 1).drop_last() =~= catalog@.take(i as int));
            lemma_total_prefix(catalog@, i as int + 1);
        }
        bytes = bytes + catalog[i].bytes;
        i = i + 1;
    }
    proof {
        assert(catalog@.take(catalog@.len() as int) =~= catalog@);
    }
    let mut missing: u64 = 0;
    let mut j: usize = 0;
    while j < shown.len()
        invariant
            j <= shown@.len(),
            forall|i: int| 0 <= i < shown@.len() ==> #[trigger] shown@[i] < catalog@.len(),
            missing == missing_count(catalog@, shown@.take(j as int)),
            missing <= j,
        decreases shown.len() - j,
    {
        proof {
            assert(shown@.take(j + 1).drop_last() =~= shown@.take(j as int));
        }
        if catalog[shown[j]].state == FontState::Missing {
            missing = missing + 1;
        }
        j = j + 1;
    }
    proof {
        assert(shown@.take(shown@.len() as int) =~= shown@);
    }
    let mut out = String::new();
    push_decimal(&mut out, shown.len() as u64);
    push_str(&mut out, " families, ");
    push_decimal(&mut out, missing);
    push_str(&mut out, " to download, ");
    let size = bytes_label(bytes);
    push_str(&mut out, size.as_str());
    push_str(&mut out, " on disk");
    // Past the soft cap the page says so; it never refuses a download.
    if bytes > soft_total {
        push_str(&mut out, " — the font directory is large");
    }
    assert(out@ =~= summary(catalog@, shown@, None, soft_total));
    out
}

proof fn lemma_total_prefix(catalog: Seq<Family>, k: int)
    requires
        0 <= k <= catalog.len(),
    ensures
        total_bytes(catalog.take(k)) <= total_bytes(catalog),
    decreases catalog.len() - k,
{
    if k < catalog.len() {
        lemma_total_prefix(catalog, k + 1);
        assert(catalog.take(k + 1).drop_last() =~= catalog.take(k));
    } else {
        assert(catalog.take(k) =~= catalog);
    }
}

/// A running download's phase, as the Fonts page words it.
pub open spec fn page_phase_text(phase: Phase) -> Seq<char> {
    match phase {
        Phase::Queued => "Waiting"@,
        Phase::Downloading => "Downloading"@,
        Phase::Extracting => "Extracting"@,
        Phase::Done => "Done"@,
        Phase::Failed => "Failed"@,
        Phase::Cancelled => "Cancelled"@,
    }
}

fn page_phase(phase: Phase) -> (r: &'static str)
    ensures
        r@ == page_phase_text(phase),
{
    match phase {
        Phase::Queued => "Waiting",
        Phase::Downloading => "Downloading",
        Phase::Extracting => "Extracting",
        Phase::Done => "Done",
        Phase::Failed => "Failed",
        Phase::Cancelled => "Cancelled",
    }
}

/// A running download's phase, as the `fonts` commands word it.
pub open spec fn command_phase_text(phase: Phase) -> Seq<char> {
    match phase {
        Phase::Queued => "queued"@,
        Phase::Downloading => "downloading"@,
        Phase::Extracting => "extracting"@,
        Phase::Done => "done"@,
        Phase::Failed => "failed"@,
        Phase::Cancelled => "cancelled"@,
    }
}

fn command_phase(phase: Phase) -> (r: &'static str)
    ensures
        r@ == command_phase_text(phase),
{
    match phase {
        Phase::Queued => "queued",
        Phase::Downloading => "downloading",
        Phase::Extracting => "extracting",
        Phase::Done => "done",
        Phase::Failed => "failed",
        Phase::Cancelled => "cancelled",
    }
}

pub open spec fn opt_text(s: Option<String>) -> Option<Seq<char>> {
    match s {
        Some(s) => Some(s@),
        None => None,
    }
}

/// The second line of a family while it downloads.
pub open spec fn job_text(p: Progress) -> Seq<char> {
    let phase = page_phase_text(p.phase);
    let head = match opt_text(p.current) {
        Some(c) => if p.files_total > 0 {
            phase + " "@ + c + " — "@ + decimal(p.files_done as nat) + "/"@ + decimal(
                p.files_total as nat,
            ) + " files"@
        } else {
            phase + " "@ + c
        },
        None => phase,
    };
    let amount = match p.bytes_total {
        Some(t) if t > 0 => {
            let percent = (p.bytes_done * 100) / (t as int);
            ", "@ + decimal(if percent < 100 { percent as nat } else { 100 }) + "%"@
        },
        _ => if p.bytes_done > 0 {
            ", "@ + page_bytes_text(p.bytes_done as nat)
        } else {
            seq![]
        },
    };
    let note = match opt_text(p.note) {
        Some(n) => " — "@ + n,
        None => seq![],
    };
    head + amount + note
}

/// One family's second line while it is downloading: its phase and file, how
/// far the files are, a percentage when the total is known or else the bytes
/// so far, and the job's note.
pub fn describe_job(progress: &Progress) -> (r: String)
    requires
        progress.bytes_done <= u64::MAX / 100,
    ensures
        r@ == job_text(*progress),
{
    let mut out = String::new();
    push_str(&mut out, page_phase(progress.phase));
    match &progress.current {
        Some(current) => {
            push_str(&mut out, " ");
            push_str(&mut out, current.as_str());
            if progress.files_total > 0 {
                push_str(&mut out, " — ");
                push_decimal(&mut out, progress.files_done);
                push_str(&mut out, "/");
                push_decimal(&mut out, progress.files_total);
                push_str(&mut out, " files");
            }
        },
        None => {},
    }
    // A known total is more useful as a percentage; without one, the bytes
    // transferred so far are all there is to show.
    let known = match progress.bytes_total {
        Some(total) => total > 0,
        None => false,
    };
    if known {
        let total = progress.bytes_total.unwrap();
        let mut percent = progress.bytes_done * 100 / total;
        if percent > 100 {
            percent = 100;
        }
        push_str(&mut out, ", ");
        push_decimal(&mut out, percent);
        push_str(&mut out, "%");
    } else if progress.bytes_done > 0 {
        push_str(&mut out, ", ");
        let size = bytes_label(progress.bytes_done);
        push_str(&mut out, size.as_str());
    }
    if let Some(note) = &progress.note {
        push_str(&mut out, " — ");
        push_str(&mut out, note.as_str());
    }
    assert(out@ =~= job_text(*progress));
    out
}

/// One line of progress for a terminal or a log.
pub open spec fn progress_line(p: Progress) -> Seq<char> {
    let files = if p.files_total > 0 {
        " "@ + decimal(p.files_done as nat) + "/"@ + decimal(p.files_total as nat) + " files"@
    } else {
        seq![]
    };
    let current = match opt_text(p.current) {
        Some(c) => " "@ + c,
        None => seq![],
    };
    p.id@ + ": "@ + command_phase_text(p.phase) + current + files + " "@ + command_bytes_text(
        p.bytes_done as nat,
    )
}

/// One line of progress: the family, its phase, the file, how far the files
/// are, and the bytes so far.
pub fn describe(progress: &Progress) -> (r: String)
    ensures
        r@ == progress_line(*progress),
{
    let mut out = String::new();
    push_str(&mut out, progress.id.as_str());
    push_str(&mut out, ": ");
    push_str(&mut out, command_phase(progress.phase));
    if let Some(name) = &progress.current {
        push_str(&mut out, " ");
        push_str(&mut out, name.as_str());
    }
    if progress.files_total > 0 {
        push_str(&mut out, " ");
        push_decimal(&mut out, progress.files_done);
        push_str(&mut out, "/");
        push_decimal(&mut out, progress.files_total);
        push_str(&mut out, " files");
    }
    push_str(&mut out, " ");
    let size = command_bytes_label(progress.bytes_done);
    push_str(&mut out, size.as_str());
    assert(out@ =~= progress_line(*progress));
    out
}

/// The third line of a family: its state, license, size, and the sheets that
/// declare it, joined by ` · `.
pub open spec fn meta(f: Family) -> Seq<char> {
    let parts = seq![page_state_text(f.state)] + match opt_text(f.license) {
        Some(l) => seq![l],
        None => seq![],
    } + if f.bytes > 0 {
        seq![page_bytes_text(f.bytes as nat)]
    } else {
        seq![]
    } + if f.owners@.len() > 0 {
        seq![joined(f.owners@.map_values(|x: String| x@), ", "@)]
    } else {
        seq![]
    };
    joined(parts, " · "@)
}

/// The third line: license, size, and who declares the family.
pub fn meta_text(family: &Family) -> (r: String)
    ensures
        r@ == meta(*family),
{
    let mut parts: Vec<String> = Vec::new();
    parts.push(state_label(family.state).to_owned());
    if let Some(license) = &family.license {
        parts.push(license.clone());
    }
    if family.bytes > 0 {
        parts.push(bytes_label(family.bytes));
    }
    if family.owners.len() > 0 {
        let mut owners = String::new();
        push_joined(&mut owners, &family.owners, ", ");
        parts.push(owners);
    }
    let mut out = String::new();
    push_joined(&mut out, &parts, " · ");
    proof {
        let views = parts@.map_values(|x: String| x@);
        let expected = seq![page_state_text(family.state)] + match opt_text(family.license) {
            Some(l) => seq![l],
            None => seq![],
        } + if family.bytes > 0 {
            seq![page_bytes_text(family.bytes as nat)]
        } else {
            seq![]
        } + if family.owners@.len() > 0 {
            seq![joined(family.owners@.map_values(|x: String| x@), ", "@)]
        } else {
            seq![]
        };
        assert(views =~= expected);
    }
    out
}

/// `n / d` rounded up.
pub open spec fn div_ceil(n: int, d: int) -> int {
    (n + d - 1) / d
}

/// How many pages the shown families need at `rows` per page (a zero row
/// count counts as one); never zero, so paging arithmetic is safe.
pub fn fonts_pages(rows: usize, shown: usize) -> (r: usize)
    ensures
        r == if shown == 0 {
            1
        } else {
            div_ceil(shown as int, if rows == 0 { 1 } else { rows as int })
        },
{
    let per: usize = if rows == 0 {
        1
    } else {
        rows
    };
    if shown == 0 {
        return 1;
    }
    let q: usize = shown / per;
    let rem: usize = shown % per;
    proof {
        assert(shown == per * q + rem) by (nonlinear_arith)
            requires
                per > 0,
                q == shown / per,
                rem == shown % per,
        ;
        if rem > 0 {
            assert(q < shown) by (nonlinear_arith)
                requires
                    per > 1,
                    shown > 0,
                    q == shown / per,
            ;
        }
        assert((shown + per - 1) / (per as int) == q + if rem > 0 { 1int } else { 0int })
            by (nonlinear_arith)
            requires
                per > 0,
                shown == per * q + rem,
                0 <= rem < per,
        ;
    }
    if rem > 0 {
        q + 1
    } else {
        q
    }
}

/// What a family's row button does.
#[derive(Clone, Copy, Debug, PartialEq, Eq, Structural)]
pub enum RowAction {
    Cancel,
    DownloadAgain,
    Download,
}

/// One family's action: a running download can only be cancelled, a family on
/// disk can be downloaded again, and anything else downloaded.
pub fn action(state: FontState, running: bool) -> (r: (&'static str, RowAction))
    ensures
        r.1 == if running {
            RowAction::Cancel
        } else if state == FontState::Downloaded {
            RowAction::DownloadAgain
        } else {
            RowAction::Download
        },
        r.0@ == match r.1 {
            RowAction::Cancel => "Cancel"@,
            RowAction::DownloadAgain => "Download again"@,
            RowAction::Download => "Download"@,
        },
{
    if running {
        return ("Cancel", RowAction::Cancel);
    }
    if state == FontState::Downloaded {
        return ("Download again", RowAction::DownloadAgain);
    }
    ("Download", RowAction::Download)
}

/// The status filter after one press: missing, installed, on disk, all.
pub fn next_status(filter: Option<FontState>) -> (r: Option<FontState>)
    ensures
        r == match filter {
            None => Some(FontState::Missing),
            Some(FontState::Missing) => Some(FontState::Provided),
            Some(FontState::Provided) => Some(FontState::Downloaded),
            Some(FontState::Downloaded) => None,
        },
{
    match filter {
        None => Some(FontState::Missing),
        Some(FontState::Missing) => Some(FontState::Provided),
        Some(FontState::Provided) => Some(FontState::Downloaded),
        Some(FontState::Downloaded) => None,
    }
}

} // verus!
