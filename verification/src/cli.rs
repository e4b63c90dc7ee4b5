//! Launch decisions: which mode runs, and which of its inputs are accepted.
use vstd::prelude::*;
use crate::text::{ascii_alnum, ascii_alpha, is_ascii_alnum, is_ascii_alpha, push_str, str_equal, trim, trimmed};

verus! {

/// What a launch does: the reader window, or one of the command-line modes.
#[derive(Clone, Copy, Debug, PartialEq, Eq, Structural)]
pub enum Mode {
    Window,
    Render,
    Bench,
    Latency,
    Smoke,
    Pdf,
    StylesheetList,
    Serve,
    Fonts,
}

impl Mode {
    /// A static image or a sheet of paper cannot be scrolled sideways, so code
    /// blocks wrap by default whenever a mode writes one.
    pub fn wraps_code_blocks(&self) -> (r: bool)
        ensures
            r == (*self == Mode::Render || *self == Mode::Smoke || *self == Mode::Pdf),
    {
        matches!(self, Mode::Render | Mode::Smoke | Mode::Pdf)
    }

    /// A mode that draws an artifact shapes with the personal download
    /// directory too; measurement runs keep the pinned set.
    pub fn uses_personal_fonts(&self) -> (r: bool)
        ensures
            r == (*self == Mode::Window || *self == Mode::Render || *self == Mode::Smoke
                || *self == Mode::Pdf),
    {
        matches!(self, Mode::Window | Mode::Render | Mode::Smoke | Mode::Pdf)
    }
}

/// An RFC 3066 language tag as the PDF writer accepts it: ASCII letters,
/// digits and hyphens, at most 64 of them, starting with a letter, not ending
/// with a hyphen, and never two hyphens in a row.
pub open spec fn language_tag(s: Seq<char>) -> bool {
    &&& 0 < s.len() <= 64
    &&& forall|i: int| 0 <= i < s.len() ==> (is_ascii_alnum(#[trigger] s[i]) || s[i] == '-')
    &&& is_ascii_alpha(s[0])
    &&& s[s.len() - 1] != '-'
    &&& forall|i: int| 0 <= i < s.len() - 1 ==> !(#[trigger] s[i] == '-' && s[i + 1] == '-')
}

/// Whether `value` reads as an RFC 3066 language tag.
pub fn is_language_tag(value: &str) -> (r: bool)
    ensures
        r == language_tag(value@),
{
    let n = value.unicode_len();
    if n == 0 || n > 64 {
        return false;
    }
    let mut i: usize = 0;
    while i < n
        invariant
            n == value@.len(),
            0 < n <= 64,
            i <= n,
            forall|k: int| 0 <= k < i ==> (is_ascii_alnum(#[trigger] value@[k]) || value@[k]
                == '-'),
            forall|k: int| 0 <= k < i && k + 1 < n ==> !(#[trigger] value@[k] == '-' && value@[k + 1] == '-'),
        decreases n - i,
    {
        let c = value.get_char(i);
        if !(ascii_alnum(c) || c == '-') {
            return false;
        }
        if c == '-' && i + 1 < n && value.get_char(i + 1) == '-' {
            return false;
        }
        i = i + 1;
    }
    ascii_alpha(value.get_char(0)) && value.get_char(n - 1) != '-'
}


/// The subcommand that replaced an old mode flag.
pub open spec fn replacement(flag: Seq<char>) -> Option<Seq<char>> {
    if flag == "--render"@ {
        Some("render"@)
    } else if flag == "--pdf"@ {
        Some("pdf"@)
    } else if flag == "--bench"@ {
        Some("bench"@)
    } else if flag == "--bench-latency"@ {
        Some("latency"@)
    } else if flag == "--smoke-test"@ {
        Some("smoke"@)
    } else {
        None
    }
}

/// What the command line says of an old mode flag.
pub open spec fn hint_text(flag: Seq<char>, sub: Seq<char>) -> Seq<char> {
    flag + " is a subcommand now: write `markview "@ + sub + " FILE ...`; run `markview "@ + sub
        + " --help`"@
}

/// The hint for the first old mode flag among `args`, if there is one.
pub open spec fn first_hint(args: Seq<Seq<char>>) -> Option<Seq<char>>
    decreases args.len(),
{
    if args.len() == 0 {
        None
    } else {
        match replacement(args[0]) {
            Some(sub) => Some(hint_text(args[0], sub)),
            None => first_hint(args.drop_first()),
        }
    }
}

fn replacement_of(flag: &str) -> (r: Option<&'static str>)
    ensures
        r matches Some(t) ==> replacement(flag@) == Some(t@),
        r is None ==> replacement(flag@) is None,
{
    if str_equal(flag, "--render") {
        Some("render")
    } else if str_equal(flag, "--pdf") {
        Some("pdf")
    } else if str_equal(flag, "--bench") {
        Some("bench")
    } else if str_equal(flag, "--bench-latency") {
        Some("latency")
    } else if str_equal(flag, "--smoke-test") {
        Some("smoke")
    } else {
        None
    }
}

/// The old flag form a subcommand replaced, with what to write instead: the
/// first such flag among the arguments wins.
pub fn legacy_hint(args: &[String]) -> (r: Option<String>)
    ensures
        (match r {
            Some(t) => Some(t@),
            None => None,
        }) == first_hint(args@.map_values(|a: String| a@)),
{
    let ghost all = args@.map_values(|a: String| a@);
    let mut i: usize = 0;
    proof {
        assert(all.skip(0) =~= all);
    }
    while i < args.len()
        invariant
            i <= args@.len(),
            all == args@.map_values(|a: String| a@),
            first_hint(all) == first_hint(all.skip(i as int)),
        decreases args.len() - i,
    {
        proof {
            assert(all.skip(i as int).drop_first() =~= all.skip(i + 1));
            assert(all.skip(i as int)[0] == args@[i as int]@);
        }
        if let Some(sub) = replacement_of(args[i].as_str()) {
            let mut text = String::new();
            push_str(&mut text, args[i].as_str());
            push_str(&mut text, " is a subcommand now: write `markview ");
            push_str(&mut text, sub);
            push_str(&mut text, " FILE ...`; run `markview ");
            push_str(&mut text, sub);
            push_str(&mut text, " --help`");
            proof {
                assert(text@ =~= hint_text(args@[i as int]@, sub@));
            }
            return Some(text);
        }
        i = i + 1;
    }
    proof {
        assert(all.skip(i as int) =~= seq![]);
    }
    None
}

/// `s` cut at every `sep`, as `str::split` cuts it: one more piece than
/// there are separators, empty pieces included.
pub open spec fn pieces(s: Seq<char>, sep: char) -> Seq<Seq<char>>
    decreases s.len(),
{
    if s.len() == 0 {
        seq![seq![]]
    } else {
        let before = pieces(s.drop_last(), sep);
        if s.last() == sep {
            before.push(seq![])
        } else {
            before.update(before.len() - 1, before.last().push(s.last()))
        }
    }
}

pub(crate) proof fn lemma_pieces_len(s: Seq<char>, sep: char)
    ensures
        pieces(s, sep).len() >= 1,
    decreases s.len(),
{
    if s.len() > 0 {
        lemma_pieces_len(s.drop_last(), sep);
    }
}

/// The trimmed pieces that hold something, in order.
pub open spec fn filled(list: Seq<Seq<char>>) -> Seq<Seq<char>>
    decreases list.len(),
{
    if list.len() == 0 {
        seq![]
    } else {
        filled(list.drop_last()) + if trim(list.last()).len() > 0 {
            seq![trim(list.last())]
        } else {
            seq![]
        }
    }
}

/// The items of `list` that are not blank, untouched.
pub open spec fn named(list: Seq<Seq<char>>) -> Seq<Seq<char>>
    decreases list.len(),
{
    if list.len() == 0 {
        seq![]
    } else {
        named(list.drop_last()) + if trim(list.last()).len() > 0 {
            seq![list.last()]
        } else {
            seq![]
        }
    }
}

/// The PDF keywords of a comma-separated list: each one trimmed, the empty
/// ones dropped.
pub fn keywords(text: &str) -> (r: Vec<String>)
    ensures
        r@.map_values(|k: String| k@) == filled(pieces(text@, ',')),
{
    let n = text.unicode_len();
    let mut out: Vec<String> = Vec::new();
    let mut cur = String::new();
    let mut i: usize = 0;
    while i < n
        invariant
            n == text@.len(),
            i <= n,
            pieces(text@.take(i as int), ',').len() >= 1,
            cur@ == pieces(text@.take(i as int), ',').last(),
            out@.map_values(|k: String| k@) == filled(
                pieces(text@.take(i as int), ',').drop_last(),
            ),
        decreases n - i,
    {
        let c = text.get_char(i);
        let ghost p = pieces(text@.take(i as int), ',');
        proof {
            assert(text@.take(i + 1).drop_last() =~= text@.take(i as int));
            assert(text@.take(i + 1).last() == c);
            lemma_pieces_len(text@.take(i + 1), ',');
        }
        if c == ',' {
            let word = trimmed(cur.as_str());
            let ghost before = out@;
            if word.unicode_len() > 0 {
                out.push(word.to_owned());
            }
            proof {
                assert(p.push(seq![]).drop_last() =~= p);
                assert(p =~= p.drop_last().push(p.last()));
                assert(p.drop_last().push(p.last()).drop_last() =~= p.drop_last());
                assert(out@.map_values(|k: String| k@) =~= filled(p));
            }
            cur = String::new();
            proof {
                assert(cur@ =~= seq![]);
            }
        } else {
            crate::text::push_char(&mut cur, c);
            proof {
                let q = p.update(p.len() - 1, p.last().push(c));
                assert(q.drop_last() =~= p.drop_last());
            }
        }
        i = i + 1;
    }
    let word = trimmed(cur.as_str());
    let ghost p = pieces(text@.take(n as int), ',');
    if word.unicode_len() > 0 {
        out.push(word.to_owned());
    }
    proof {
        assert(text@.take(n as int) =~= text@);
        assert(p =~= p.drop_last().push(p.last()));
        assert(p.drop_last().push(p.last()).drop_last() =~= p.drop_last());
        assert(out@.map_values(|k: String| k@) =~= filled(p));
    }
    out
}

proof fn lemma_pieces_avoid(s: Seq<char>, sep: char)
    ensures
        forall|j: int, k: int|
            0 <= j < pieces(s, sep).len() && 0 <= k < pieces(s, sep)[j].len() ==> #[trigger] pieces(
                s,
                sep,
            )[j][k] != sep,
    decreases s.len(),
{
    if s.len() > 0 {
        lemma_pieces_avoid(s.drop_last(), sep);
        lemma_pieces_len(s.drop_last(), sep);
        let before = pieces(s.drop_last(), sep);
        let p = pieces(s, sep);
        assert forall|j: int, k: int| 0 <= j < p.len() && 0 <= k < p[j].len() implies #[trigger] p[j][k]
            != sep by {
            if s.last() == sep {
                if j < before.len() {
                    assert(p[j] == before[j]);
                }
            } else if j < before.len() - 1 {
                assert(p[j] == before[j]);
            } else {
                let last = before[before.len() - 1];
                assert(p[j] == last.push(s.last()));
                if k < last.len() {
                    assert(p[j][k] == last[k]);
                }
            }
        }
    }
}

proof fn lemma_trim_within(s: Seq<char>)
    ensures
        exists|a: int, b: int| 0 <= a <= b <= s.len() && trim(s) == #[trigger] s.subrange(a, b),
        trim(s).len() > 0 ==> !crate::text::is_space(trim(s)[0]) && !crate::text::is_space(
            trim(s).last(),
        ),
{
    lemma_trim_start_within(s);
    let a = choose|a: int|
        0 <= a <= s.len() && crate::text::trim_start(s) == #[trigger] s.subrange(a, s.len() as int);
    let t = crate::text::trim_start(s);
    lemma_trim_end_within(t);
    let b = choose|b: int| 0 <= b <= t.len() && crate::text::trim_end(t) == #[trigger] t.subrange(0, b);
    assert(trim(s) =~= s.subrange(a, a + b));
    lemma_trim_start_edge(s);
    lemma_trim_end_edge(t);
    if trim(s).len() > 0 {
        assert(trim(s)[0] == t[0]);
    }
}

proof fn lemma_trim_start_within(s: Seq<char>)
    ensures
        exists|a: int|
            0 <= a <= s.len() && crate::text::trim_start(s) == #[trigger] s.subrange(
                a,
                s.len() as int,
            ),
    decreases s.len(),
{
    if s.len() > 0 && crate::text::is_space(s[0]) {
        let d = s.drop_first();
        lemma_trim_start_within(d);
        let a = choose|a: int|
            0 <= a <= d.len() && crate::text::trim_start(d) == #[trigger] d.subrange(
                a,
                d.len() as int,
            );
        assert(d.subrange(a, d.len() as int) =~= s.subrange(a + 1, s.len() as int));
    } else {
        assert(s =~= s.subrange(0, s.len() as int));
    }
}

proof fn lemma_trim_end_within(s: Seq<char>)
    ensures
        exists|b: int| 0 <= b <= s.len() && crate::text::trim_end(s) == #[trigger] s.subrange(0, b),
    decreases s.len(),
{
    if s.len() > 0 && crate::text::is_space(s.last()) {
        let d = s.drop_last();
        lemma_trim_end_within(d);
        let b = choose|b: int| 0 <= b <= d.len() && crate::text::trim_end(d) == #[trigger] d.subrange(0, b);
        assert(d.subrange(0, b) =~= s.subrange(0, b));
    } else {
        assert(s =~= s.subrange(0, s.len() as int));
    }
}

proof fn lemma_trim_start_edge(s: Seq<char>)
    ensures
        crate::text::trim_start(s).len() > 0 ==> !crate::text::is_space(
            crate::text::trim_start(s)[0],
        ),
    decreases s.len(),
{
    if s.len() > 0 && crate::text::is_space(s[0]) {
        lemma_trim_start_edge(s.drop_first());
    }
}

proof fn lemma_trim_end_edge(s: Seq<char>)
    ensures
        crate::text::trim_end(s).len() > 0 ==> !crate::text::is_space(
            crate::text::trim_end(s).last(),
        ),
        crate::text::trim_end(s).len() > 0 ==> crate::text::trim_end(s)[0] == s[0],
    decreases s.len(),
{
    if s.len() > 0 && crate::text::is_space(s.last()) {
        lemma_trim_end_edge(s.drop_last());
    }
}

/// Every PDF keyword holds something, has no white space at either end, and
/// holds no comma.
pub proof fn keywords_are_trimmed_and_comma_free(text: Seq<char>)
    ensures
        forall|j: int|
            0 <= j < filled(pieces(text, ',')).len() ==> {
                let k = #[trigger] filled(pieces(text, ','))[j];
                &&& k.len() > 0
                &&& !crate::text::is_space(k[0])
                &&& !crate::text::is_space(k.last())
                &&& !k.contains(',')
            },
{
    lemma_pieces_avoid(text, ',');
    lemma_filled_members(pieces(text, ','));
}

proof fn lemma_filled_members(list: Seq<Seq<char>>)
    requires
        forall|j: int, k: int| 0 <= j < list.len() && 0 <= k < list[j].len() ==> #[trigger] list[j][k] != ',',
    ensures
        forall|j: int|
            0 <= j < filled(list).len() ==> {
                let k = #[trigger] filled(list)[j];
                &&& k.len() > 0
                &&& !crate::text::is_space(k[0])
                &&& !crate::text::is_space(k.last())
                &&& !k.contains(',')
            },
    decreases list.len(),
{
    if list.len() > 0 {
        let before = list.drop_last();
        assert forall|j: int, k: int| 0 <= j < before.len() && 0 <= k < before[j].len() implies #[trigger] before[j][k]
            != ',' by {
            assert(before[j] == list[j]);
        }
        lemma_filled_members(before);
        let last = list.last();
        lemma_trim_within(last);
        let f = filled(list);
        let fb = filled(before);
        assert forall|j: int| 0 <= j < f.len() implies {
            let k = #[trigger] f[j];
            &&& k.len() > 0
            &&& !crate::text::is_space(k[0])
            &&& !crate::text::is_space(k.last())
            &&& !k.contains(',')
        } by {
            if j < fb.len() {
                assert(f[j] == fb[j]);
            } else {
                let t = trim(last);
                assert(f[j] == t);
                let (a, b) = choose|a: int, b: int|
                    0 <= a <= b <= last.len() && t == #[trigger] last.subrange(a, b);
                assert(!t.contains(',')) by {
                    if t.contains(',') {
                        let i = choose|i: int| 0 <= i < t.len() && t[i] == ',';
                        assert(t[i] == last[a + i]);
                        assert(list[list.len() - 1][a + i] != ',');
                    }
                }
            }
        }
    }
}

/// The PDF authors: every name that is not blank, as it was written.
pub fn authors(names: &[String]) -> (r: Vec<String>)
    ensures
        r@.map_values(|k: String| k@) == named(names@.map_values(|k: String| k@)),
{
    let ghost all = names@.map_values(|k: String| k@);
    let mut out: Vec<String> = Vec::new();
    let mut i: usize = 0;
    while i < names.len()
        invariant
            i <= names@.len(),
            all == names@.map_values(|k: String| k@),
            out@.map_values(|k: String| k@) == named(all.take(i as int)),
        decreases names.len() - i,
    {
        proof {
            assert(all.take(i + 1).drop_last() =~= all.take(i as int));
            assert(all.take(i + 1).last() == names@[i as int]@);
        }
        if trimmed(names[i].as_str()).unicode_len() > 0 {
            out.push(names[i].clone());
        }
        proof {
            assert(out@.map_values(|k: String| k@) =~= named(all.take(i + 1)));
        }
        i = i + 1;
    }
    proof {
        assert(all.take(names@.len() as int) =~= all);
    }
    out
}

/// How many layout passes a measurement runs: between one and ten thousand.
pub fn bench_iterations(asked: usize) -> (r: usize)
    ensures
        r == if asked < 1 {
            1
        } else if asked > 10_000 {
            10_000
        } else {
            asked as int
        },
{
    if asked < 1 {
        1
    } else if asked > 10_000 {
        10_000
    } else {
        asked
    }
}

/// How many font transfers may run at once: between one and sixty-four.
pub fn download_jobs(asked: usize) -> (r: usize)
    ensures
        r == if asked < 1 {
            1
        } else if asked > 64 {
            64
        } else {
            asked as int
        },
{
    if asked < 1 {
        1
    } else if asked > 64 {
        64
    } else {
        asked
    }
}

/// The CJK convention text is set in.
#[derive(Clone, Copy, Debug, PartialEq, Eq, Structural)]
pub enum CjkType {
    /// Simplified Chinese.
    Sc,
    /// Traditional Chinese.
    Tc,
    /// Japanese.
    Jp,
    /// No CJK convention: the `none` name.
    Plain,
}

/// `c` with ASCII letters in lower case.
pub open spec fn ascii_lower(c: char) -> char {
    if 'A' <= c <= 'Z' {
        ((c as u32) + 32) as char
    } else {
        c
    }
}

/// A `--cjk-type` name, read without regard to ASCII case.
pub open spec fn cjk_named(name: Seq<char>) -> Option<CjkType> {
    let lower = name.map_values(|c: char| ascii_lower(c));
    if lower == "sc"@ {
        Some(CjkType::Sc)
    } else if lower == "tc"@ {
        Some(CjkType::Tc)
    } else if lower == "jp"@ {
        Some(CjkType::Jp)
    } else if lower == "none"@ {
        Some(CjkType::Plain)
    } else {
        None
    }
}

/// Whether `name`, read without regard to ASCII case, is `word`.
fn same_word(name: &str, word: &str) -> (r: bool)
    ensures
        r == (name@.map_values(|c: char| ascii_lower(c)) == word@),
{
    let n = name.unicode_len();
    if n != word.unicode_len() {
        proof {
            assert(name@.map_values(|c: char| ascii_lower(c)).len() != word@.len());
        }
        return false;
    }
    let mut i: usize = 0;
    while i < n
        invariant
            n == name@.len(),
            n == word@.len(),
            i <= n,
            forall|k: int| 0 <= k < i ==> ascii_lower(#[trigger] name@[k]) == word@[k],
        decreases n - i,
    {
        let c = name.get_char(i);
        let w = word.get_char(i);
        let same = if 'A' <= c && c <= 'Z' {
            (c as u32) + 32 == (w as u32)
        } else {
            c == w
        };
        proof {
            if 'A' <= c <= 'Z' {
                assert(((c as u32) + 32) as char == w <==> (c as u32) + 32 == (w as u32));
            }
        }
        if !same {
            proof {
                assert(name@.map_values(|c: char| ascii_lower(c))[i as int] != word@[i as int]);
            }
            return false;
        }
        i = i + 1;
    }
    assert(name@.map_values(|c: char| ascii_lower(c)) =~= word@);
    true
}

/// Reads a `--cjk-type` name: `SC`, `TC`, `JP` or `none`, in any case.
pub fn cjk_type_from_name(name: &str) -> (r: Option<CjkType>)
    ensures
        r == cjk_named(name@),
{
    proof {
        reveal_strlit("sc");
        reveal_strlit("tc");
        reveal_strlit("jp");
        reveal_strlit("none");
    }
    if same_word(name, "sc") {
        Some(CjkType::Sc)
    } else if same_word(name, "tc") {
        Some(CjkType::Tc)
    } else if same_word(name, "jp") {
        Some(CjkType::Jp)
    } else if same_word(name, "none") {
        Some(CjkType::Plain)
    } else {
        None
    }
}

/// What the whole command line settled, as the final checks read it.
#[derive(Clone, Copy, Debug, PartialEq, Eq, Structural)]
pub struct LaunchChecks {
    pub mode: Mode,
    /// `--style` was given.
    pub style: bool,
    /// `--light` or `--dark` was given.
    pub theme: bool,
    /// A document was named.
    pub path: bool,
    /// An output file was named.
    pub output: bool,
    /// `--watch` was given.
    pub watch: bool,
}

/// Why a command line is refused once every option is known.
#[derive(Clone, Copy, Debug, PartialEq, Eq, Structural)]
pub enum LaunchError {
    StyleConflict,
    NeedsDocument,
    RenderNeedsOutput,
    PdfNeedsOutput,
    PdfTheme,
    WatchOverDocument,
    WatchNotPdf,
}

/// The refusal, if any, for a settled command line; `same_file` says whether
/// the document and the output name one file.
pub open spec fn verdict(c: LaunchChecks, same_file: bool) -> Option<LaunchError> {
    if c.style && c.theme {
        Some(LaunchError::StyleConflict)
    } else if c.mode == Mode::Window || c.mode == Mode::StylesheetList || c.mode == Mode::Fonts
        || c.mode == Mode::Serve {
        None
    } else if !c.path {
        Some(LaunchError::NeedsDocument)
    } else if c.mode == Mode::Render && !c.output {
        Some(LaunchError::RenderNeedsOutput)
    } else if c.mode == Mode::Pdf {
        if !c.output {
            Some(LaunchError::PdfNeedsOutput)
        } else if c.theme {
            Some(LaunchError::PdfTheme)
        } else if c.watch && same_file {
            Some(LaunchError::WatchOverDocument)
        } else {
            None
        }
    } else if c.watch {
        Some(LaunchError::WatchNotPdf)
    } else {
        None
    }
}

/// What the command line prints for a refusal.
pub open spec fn launch_error_text(e: LaunchError) -> Seq<char> {
    match e {
        LaunchError::StyleConflict => "--style conflicts with --light and --dark"@,
        LaunchError::NeedsDocument => "This mode requires a Markdown file"@,
        LaunchError::RenderNeedsOutput => "render requires --output preview.png"@,
        LaunchError::PdfNeedsOutput => "pdf requires --output out.pdf"@,
        LaunchError::PdfTheme =>
            "pdf prints the sheet of paper, not the window; use --style to change its colors"@,
        LaunchError::WatchOverDocument =>
            "--watch cannot write the PDF over the document it watches"@,
        LaunchError::WatchNotPdf => "--watch re-exports on every save; it applies to pdf"@,
    }
}

impl LaunchError {
    /// What the command line prints for the refusal.
    pub fn message(&self) -> (r: &'static str)
        ensures
            r@ == launch_error_text(*self),
    {
        match self {
            LaunchError::StyleConflict => "--style conflicts with --light and --dark",
            LaunchError::NeedsDocument => "This mode requires a Markdown file",
            LaunchError::RenderNeedsOutput => "render requires --output preview.png",
            LaunchError::PdfNeedsOutput => "pdf requires --output out.pdf",
            LaunchError::PdfTheme =>
                "pdf prints the sheet of paper, not the window; use --style to change its colors",
            LaunchError::WatchOverDocument =>
                "--watch cannot write the PDF over the document it watches",
            LaunchError::WatchNotPdf => "--watch re-exports on every save; it applies to pdf",
        }
    }
}

/// The checks that depend on the whole command, once every option is known.
/// `same_file` says whether the document and the output resolve to one file;
/// it is read only for a watched PDF export.
pub fn finish(checks: &LaunchChecks, same_file: bool) -> (r: Result<(), LaunchError>)
    ensures
        (match r {
            Ok(()) => None,
            Err(e) => Some(e),
        }) == verdict(*checks, same_file),
{
    if checks.style && checks.theme {
        return Err(LaunchError::StyleConflict);
    }
    match checks.mode {
        Mode::Window | Mode::StylesheetList | Mode::Fonts | Mode::Serve => {
            return Ok(());
        },
        _ => {},
    }
    if !checks.path {
        return Err(LaunchError::NeedsDocument);
    }
    if checks.mode == Mode::Render && !checks.output {
        return Err(LaunchError::RenderNeedsOutput);
    }
    if checks.mode == Mode::Pdf {
        if !checks.output {
            return Err(LaunchError::PdfNeedsOutput);
        }
        if checks.theme {
            return Err(LaunchError::PdfTheme);
        }
        if checks.watch && same_file {
            return Err(LaunchError::WatchOverDocument);
        }
    } else if checks.watch {
        return Err(LaunchError::WatchNotPdf);
    }
    Ok(())
}

/// What a settled command line is refused for: --style with a theme always;
/// the reader and the listing modes need nothing more; every other mode needs
/// a document; render and pdf need an output; pdf takes no theme; and
/// --watch is accepted only for a pdf that does not write over its document.
pub proof fn what_a_launch_is_refused_for(c: LaunchChecks, same_file: bool)
    ensures
        c.style && c.theme ==> verdict(c, same_file) == Some(LaunchError::StyleConflict),
        (c.mode == Mode::Window || c.mode == Mode::StylesheetList || c.mode == Mode::Fonts || c.mode
            == Mode::Serve) && !(c.style && c.theme) ==> verdict(c, same_file) is None,
        verdict(c, same_file) is None ==> !(c.style && c.theme),
        verdict(c, same_file) is None && c.mode != Mode::Window && c.mode != Mode::StylesheetList
            && c.mode != Mode::Fonts && c.mode != Mode::Serve ==> {
            &&& c.path
            &&& (c.mode == Mode::Render || c.mode == Mode::Pdf) ==> c.output
            &&& c.mode == Mode::Pdf ==> !c.theme
            &&& c.watch ==> c.mode == Mode::Pdf && !same_file
        },
        !(c.style && c.theme) && c.mode != Mode::Window && c.mode != Mode::StylesheetList && c.mode
            != Mode::Fonts && c.mode != Mode::Serve && !c.path ==> verdict(c, same_file) == Some(
            LaunchError::NeedsDocument,
        ),
{
}

} // verus!
