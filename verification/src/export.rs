//! Export planning that needs no window: how a tall document is cut into
//! GPU-sized strips for one PNG, and the file name a pasted document is saved
//! under.
use vstd::prelude::*;
use crate::text::{decimal, push_decimal, push_str};

verus! {

/// A single PNG never allocates more pixels than this. At four bytes each the
/// stitched image is at most roughly 256 MiB; a document beyond it is asked to
/// use a smaller scale or the PDF export instead.
pub const MAX_PNG_PIXELS: u64 = 64_000_000;

/// One horizontal strip of the PNG, in device pixels.
#[derive(Clone, Copy, Debug, PartialEq, Eq, Structural)]
pub struct PngTile {
    pub y_px: u32,
    pub height_px: u32,
}

/// How a document becomes one PNG: its size and the strips that draw it.
pub struct PngPlan {
    pub width_px: u32,
    pub height_px: u32,
    pub tiles: Vec<PngTile>,
}

/// Why a document cannot become one PNG.
#[derive(Clone, Copy, Debug, PartialEq, Eq, Structural)]
pub enum PlanError {
    /// The page is wider than one GPU texture; strips are cut by height only.
    TooWide { width_px: u32, max_tile: u32 },
    /// The image would hold more than `MAX_PNG_PIXELS` pixels.
    TooLarge { width_px: u32, height_px: u32 },
}

/// The strip height actually used: a zero limit counts as one pixel.
pub open spec fn strip(max_tile: u32) -> int {
    if max_tile == 0 {
        1
    } else {
        max_tile as int
    }
}

/// How many strips an image `height` pixels tall needs at `strip` pixels each.
pub open spec fn tile_count(height: int, strip: int) -> int {
    (height + strip - 1) / strip
}

/// The `k`th strip: it starts `k` strips down and is a full strip tall, except
/// the last, which takes what is left.
pub open spec fn tile_at(k: int, height: int, strip: int) -> PngTile {
    let y = k * strip;
    PngTile {
        y_px: y as u32,
        height_px: (if height - y < strip {
            height - y
        } else {
            strip
        }) as u32,
    }
}

/// The text of a refusal, as the export panel shows it.
pub open spec fn plan_error_text(e: PlanError) -> Seq<char> {
    match e {
        PlanError::TooWide { width_px, max_tile } => "PNG would be "@ + decimal(width_px as nat)
            + " px wide, past the "@ + decimal(max_tile as nat)
            + " px GPU limit; use a smaller scale"@,
        PlanError::TooLarge { width_px, height_px } => "PNG would be "@ + decimal(
            width_px as nat,
        ) + "×"@ + decimal(height_px as nat) + " px; use a smaller scale or export a PDF"@,
    }
}

impl PlanError {
    /// What the export panel says when it refuses.
    pub fn message(&self) -> (r: String)
        ensures
            r@ == plan_error_text(*self),
    {
        let mut s = String::new();
        match *self {
            PlanError::TooWide { width_px, max_tile } => {
                push_str(&mut s, "PNG would be ");
                push_decimal(&mut s, width_px as u64);
                push_str(&mut s, " px wide, past the ");
                push_decimal(&mut s, max_tile as u64);
                push_str(&mut s, " px GPU limit; use a smaller scale");
            },
            PlanError::TooLarge { width_px, height_px } => {
                push_str(&mut s, "PNG would be ");
                push_decimal(&mut s, width_px as u64);
                push_str(&mut s, "×");
                push_decimal(&mut s, height_px as u64);
                push_str(&mut s, " px; use a smaller scale or export a PDF");
            },
        }
        assert(s@ =~= plan_error_text(*self));
        s
    }
}

/// Splits an image of `width_px` × `height_px` device pixels into strips no
/// taller than `max_tile` (a zero limit counts as one). The whole page must
/// fit across one strip, and the image must stay within `MAX_PNG_PIXELS`.
pub fn plan(width_px: u32, height_px: u32, max_tile: u32) -> (r: Result<PngPlan, PlanError>)
    ensures
        width_px > strip(max_tile) ==> r == Err::<PngPlan, PlanError>(
            PlanError::TooWide { width_px, max_tile: strip(max_tile) as u32 },
        ),
        width_px <= strip(max_tile) && width_px * height_px > MAX_PNG_PIXELS ==> r == Err::<
            PngPlan,
            PlanError,
        >(PlanError::TooLarge { width_px, height_px }),
        width_px <= strip(max_tile) && width_px * height_px <= MAX_PNG_PIXELS ==> r is Ok,
        r matches Ok(p) ==> {
            &&& p.width_px == width_px
            &&& p.height_px == height_px
            &&& p.tiles@.len() == tile_count(height_px as int, strip(max_tile))
            &&& forall|k: int|
                0 <= k < p.tiles@.len() ==> #[trigger] p.tiles@[k] == tile_at(
                    k,
                    height_px as int,
                    strip(max_tile),
                )
        },
{
    let m: u32 = if max_tile == 0 {
        1
    } else {
        max_tile
    };
    // A strip is cut by height alone, so the full page must fit across.
    if width_px > m {
        return Err(PlanError::TooWide { width_px, max_tile: m });
    }
    assert((width_px as u64) * (height_px as u64) <= u64::MAX) by (nonlinear_arith)
        requires
            width_px <= u32::MAX,
            height_px <= u32::MAX,
    ;
    let area: u64 = (width_px as u64) * (height_px as u64);
    if area > MAX_PNG_PIXELS {
        return Err(PlanError::TooLarge { width_px, height_px });
    }
    let mut tiles: Vec<PngTile> = Vec::new();
    let mut y: u32 = 0;
    while y < height_px
        invariant
            m == strip(max_tile),
            m >= 1,
            y <= height_px,
            y == (if tiles@.len() * m < height_px {
                tiles@.len() * m
            } else {
                height_px as int
            }),
            y < height_px ==> y == tiles@.len() * m,
            tiles@.len() > 0 ==> (tiles@.len() - 1) * m < height_px,
            forall|k: int|
                0 <= k < tiles@.len() ==> #[trigger] tiles@[k] == tile_at(
                    k,
                    height_px as int,
                    m as int,
                ),
        decreases height_px - y,
    {
        let left: u32 = height_px - y;
        let h: u32 = if m < left {
            m
        } else {
            left
        };
        let ghost k = tiles@.len() as int;
        tiles.push(PngTile { y_px: y, height_px: h });
        proof {
            assert((k + 1) * m == k * m + m) by (nonlinear_arith);
            assert(tiles@[k] == tile_at(k, height_px as int, m as int));
        }
        y = y + h;
    }
    proof {
        let k = tiles@.len() as int;
        assert(k == tile_count(height_px as int, m as int)) by (nonlinear_arith)
            requires
                m >= 1,
                k >= 0,
                k * m >= height_px,
                k > 0 ==> (k - 1) * m < height_px,
                height_px == 0 ==> k == 0,
        ;
    }
    Ok(PngPlan { width_px, height_px, tiles })
}

/// The strips of a plan cover the image exactly, in order and without
/// overlap: the first starts at the top, each starts where the one before
/// ends, the last ends at the bottom, and every strip is between one pixel
/// and the strip limit tall.
pub proof fn tiles_cover_the_image(height: u32, max_tile: u32)
    requires
        height > 0,
    ensures
        tile_count(height as int, strip(max_tile)) >= 1,
        tile_at(0, height as int, strip(max_tile)).y_px == 0,
        forall|k: int|
            0 <= k < tile_count(height as int, strip(max_tile)) ==> {
                let t = #[trigger] tile_at(k, height as int, strip(max_tile));
                0 < t.height_px <= strip(max_tile)
            },
        forall|k: int|
            0 <= k && k + 1 < tile_count(height as int, strip(max_tile)) ==> #[trigger] tile_at(
                k + 1,
                height as int,
                strip(max_tile),
            ).y_px == tile_at(k, height as int, strip(max_tile)).y_px + tile_at(
                k,
                height as int,
                strip(max_tile),
            ).height_px,
        ({
            let n = tile_count(height as int, strip(max_tile));
            let last = tile_at(n - 1, height as int, strip(max_tile));
            last.y_px + last.height_px == height
        }),
{
    let m = strip(max_tile);
    let h = height as int;
    let n = tile_count(h, m);
    assert(n >= 1 && (n - 1) * m < h && n * m >= h) by (nonlinear_arith)
        requires
            m >= 1,
            h >= 1,
            n == (h + m - 1) / m,
    ;
    assert(tile_at(0, h, m).y_px == 0) by {
        assert(0 * m == 0);
    }
    assert forall|k: int| 0 <= k < n implies {
        let t = #[trigger] tile_at(k, h, m);
        0 < t.height_px <= m
    } by {
        assert(k * m < h && 0 <= k * m) by (nonlinear_arith)
            requires
                0 <= k <= n - 1,
                (n - 1) * m < h,
                m >= 1,
        ;
    }
    assert forall|k: int| 0 <= k && k + 1 < n implies #[trigger] tile_at(k + 1, h, m).y_px
        == tile_at(k, h, m).y_px + tile_at(k, h, m).height_px by {
        assert((k + 1) * m == k * m + m && (k + 1) * m < h && 0 <= k * m) by (nonlinear_arith)
            requires
                0 <= k,
                k + 1 <= n - 1,
                (n - 1) * m < h,
                m >= 1,
        ;
    }
    assert((n - 1) * m < h && h - (n - 1) * m <= m && 0 <= (n - 1) * m) by (nonlinear_arith)
        requires
            n >= 1,
            (n - 1) * m < h,
            n * m >= h,
            m >= 1,
    ;
}

/// Whether a title character cannot stand in a file name: a control code, or
/// one of the characters some file system reserves.
pub open spec fn unsafe_in_name(c: char) -> bool {
    crate::text::is_control(c) || c == '/' || c == '\\' || c == ':' || c == '*' || c == '?'
        || c == '"' || c == '<' || c == '>' || c == '|'
}

/// A title character as the file name writes it.
pub open spec fn name_char(c: char) -> char {
    if unsafe_in_name(c) {
        ' '
    } else {
        c
    }
}

/// The words of `s`: its runs of characters that are not white space.
pub open spec fn words(s: Seq<char>) -> Seq<Seq<char>>
    decreases s.len(),
{
    if s.len() == 0 {
        seq![]
    } else {
        let before = words(s.drop_last());
        let c = s.last();
        if crate::text::is_space(c) {
            before
        } else if s.len() == 1 || crate::text::is_space(s[s.len() - 2]) {
            before.push(seq![c])
        } else {
            before.update(before.len() - 1, before.last().push(c))
        }
    }
}

/// The file name a pasted document is offered under: the title with unsafe
/// characters made spaces, its words joined by single spaces, cut to 48
/// characters, or `Pasted Markdown` when nothing is left.
pub open spec fn file_name(title: Seq<char>) -> Seq<char> {
    let w = words(title.map_values(|c: char| name_char(c)));
    if w.len() == 0 {
        "Pasted Markdown"@
    } else {
        let joined = crate::fonts::joined(w, " "@);
        if joined.len() <= 48 {
            joined
        } else {
            joined.take(48)
        }
    }
}

/// The name a pasted document is written under: its title made safe, and
/// the paste's serial number so two pastes never share a file.
pub open spec fn paste_name(title: Seq<char>, serial: u64) -> Seq<char> {
    file_name(title) + "-"@ + decimal(serial as nat) + ".md"@
}

/// The file name of the `serial`th paste of a document titled `title`.
pub fn paste_file_name(title: &str, serial: u64) -> (r: String)
    ensures
        r@ == paste_name(title@, serial),
{
    let mut out = sanitize_filename(title);
    push_str(&mut out, "-");
    push_decimal(&mut out, serial);
    push_str(&mut out, ".md");
    out
}

/// The serial number of the next paste; it wraps rather than fail.
pub fn next_paste_serial(serial: u64) -> (r: u64)
    ensures
        r == (if serial == u64::MAX {
            0
        } else {
            serial + 1
        }),
{
    if serial == u64::MAX {
        0
    } else {
        serial + 1
    }
}

fn name_char_of(c: char) -> (r: char)
    ensures
        r == name_char(c),
{
    if crate::text::control(c) || c == '/' || c == '\\' || c == ':' || c == '*' || c == '?' || c
        == '"' || c == '<' || c == '>' || c == '|' {
        ' '
    } else {
        c
    }
}

pub(crate) proof fn lemma_words_nonempty(s: Seq<char>)
    ensures
        forall|j: int| 0 <= j < words(s).len() ==> #[trigger] words(s)[j].len() > 0,
        s.len() > 0 && !crate::text::is_space(s.last()) ==> words(s).len() > 0,
    decreases s.len(),
{
    if s.len() > 0 {
        lemma_words_nonempty(s.drop_last());
        let before = words(s.drop_last());
        let c = s.last();
        if !crate::text::is_space(c) {
            if s.len() == 1 || crate::text::is_space(s[s.len() - 2]) {
                assert forall|j: int| 0 <= j < words(s).len() implies #[trigger] words(s)[j].len()
                    > 0 by {
                    if j < before.len() {
                        assert(words(s)[j] == before[j]);
                    }
                }
            } else {
                assert forall|j: int| 0 <= j < words(s).len() implies #[trigger] words(s)[j].len()
                    > 0 by {
                    if j < before.len() - 1 {
                        assert(words(s)[j] == before[j]);
                    }
                }
            }
        }
    }
}

proof fn lemma_joined_extend(w: Seq<Seq<char>>, sep: Seq<char>, c: char)
    requires
        w.len() > 0,
    ensures
        crate::fonts::joined(w.update(w.len() - 1, w.last().push(c)), sep)
            == crate::fonts::joined(w, sep).push(c),
{
    let u = w.update(w.len() - 1, w.last().push(c));
    assert(u.drop_last() =~= w.drop_last());
    assert(crate::fonts::joined(u, sep) =~= crate::fonts::joined(w, sep).push(c));
}

proof fn lemma_joined_len(w: Seq<Seq<char>>, sep: Seq<char>)
    requires
        forall|j: int| 0 <= j < w.len() ==> #[trigger] w[j].len() > 0,
    ensures
        w.len() > 0 <==> crate::fonts::joined(w, sep).len() > 0,
    decreases w.len(),
{
    if w.len() > 1 {
        lemma_joined_len(w.drop_last(), sep);
        assert(w.last() == w[w.len() - 1]);
    }
    if w.len() == 1 {
        assert(w[0].len() > 0);
    }
}

/// Whether no character of `s` is unsafe in a file name.
pub open spec fn safe_name(s: Seq<char>) -> bool {
    forall|i: int| 0 <= i < s.len() ==> !unsafe_in_name(#[trigger] s[i])
}

proof fn lemma_words_safe(s: Seq<char>)
    requires
        safe_name(s),
    ensures
        forall|j: int| 0 <= j < words(s).len() ==> safe_name(#[trigger] words(s)[j]),
    decreases s.len(),
{
    if s.len() > 0 {
        let before = words(s.drop_last());
        assert(safe_name(s.drop_last())) by {
            assert forall|i: int| 0 <= i < s.drop_last().len() implies !unsafe_in_name(
                #[trigger] s.drop_last()[i],
            ) by {
                assert(s.drop_last()[i] == s[i]);
            }
        }
        lemma_words_safe(s.drop_last());
        let c = s.last();
        assert(!unsafe_in_name(c)) by {
            assert(s[s.len() - 1] == c);
        }
        let w = words(s);
        assert forall|j: int| 0 <= j < w.len() implies safe_name(#[trigger] w[j]) by {
            if !crate::text::is_space(c) {
                if s.len() == 1 || crate::text::is_space(s[s.len() - 2]) {
                    if j < before.len() {
                        assert(w[j] == before[j]);
                    } else {
                        assert(w[j] == seq![c]);
                    }
                } else {
                    lemma_words_nonempty(s.drop_last());
                    assert(s.drop_last().last() == s[s.len() - 2]);
                    assert(before.len() > 0);
                    if j < before.len() - 1 {
                        assert(w[j] == before[j]);
                    } else {
                        let last = before[before.len() - 1];
                        assert(safe_name(last));
                        assert(w[j] == last.push(c));
                        assert forall|i: int| 0 <= i < w[j].len() implies !unsafe_in_name(
                            #[trigger] w[j][i],
                        ) by {
                            if i < last.len() {
                                assert(w[j][i] == last[i]);
                            }
                        }
                    }
                }
            }
        }
    }
}

proof fn lemma_joined_safe(w: Seq<Seq<char>>, sep: Seq<char>)
    requires
        forall|j: int| 0 <= j < w.len() ==> safe_name(#[trigger] w[j]),
        safe_name(sep),
    ensures
        safe_name(crate::fonts::joined(w, sep)),
    decreases w.len(),
{
    if w.len() > 1 {
        lemma_joined_safe(w.drop_last(), sep);
        let a = crate::fonts::joined(w.drop_last(), sep);
        let b = w.last();
        assert(safe_name(b)) by {
            assert(w[w.len() - 1] == b);
        }
        let all = a + sep + b;
        assert forall|i: int| 0 <= i < all.len() implies !unsafe_in_name(#[trigger] all[i]) by {
            if i < a.len() {
                assert(all[i] == a[i]);
            } else if i < a.len() + sep.len() {
                assert(all[i] == sep[i - a.len()]);
            } else {
                assert(all[i] == b[i - a.len() - sep.len()]);
            }
        }
    } else if w.len() == 1 {
        assert(safe_name(w[0]));
    }
}

/// A pasted document's file name is never empty, never longer than 48
/// characters, and holds no character a file system reserves.
pub proof fn a_file_name_is_safe_and_short(title: Seq<char>)
    ensures
        0 < file_name(title).len() <= 48,
        safe_name(file_name(title)),
{
    let src = title.map_values(|c: char| name_char(c));
    assert(safe_name(src)) by {
        assert forall|i: int| 0 <= i < src.len() implies !unsafe_in_name(#[trigger] src[i]) by {
            assert(src[i] == name_char(title[i]));
        }
    }
    lemma_words_safe(src);
    lemma_words_nonempty(src);
    let w = words(src);
    if w.len() == 0 {
        reveal_strlit("Pasted Markdown");
        assert(safe_name("Pasted Markdown"@));
    } else {
        reveal_strlit(" ");
        lemma_joined_safe(w, " "@);
        lemma_joined_len(w, " "@);
        let joined = crate::fonts::joined(w, " "@);
        if joined.len() > 48 {
            assert forall|i: int| 0 <= i < joined.take(48).len() implies !unsafe_in_name(
                #[trigger] joined.take(48)[i],
            ) by {
                assert(joined.take(48)[i] == joined[i]);
            }
        }
    }
}

/// The name a pasted document is offered under, from its title.
pub fn sanitize_filename(title: &str) -> (r: String)
    ensures
        r@ == file_name(title@),
{
    let ghost src = title@.map_values(|c: char| name_char(c));
    let n = title.unicode_len();
    let mut out = String::new();
    // A space seen since the last word; it becomes one separator if another
    // word follows.
    let mut gap = false;
    let mut i: usize = 0;
    while i < n
        invariant
            n == title@.len(),
            src == title@.map_values(|c: char| name_char(c)),
            i <= n,
            out@ == crate::fonts::joined(words(src.take(i as int)), " "@),
            out@.len() > 0 <==> words(src.take(i as int)).len() > 0,
            gap <==> (i > 0 && crate::text::is_space(src[i - 1])),
        decreases n - i,
    {
        let c = name_char_of(title.get_char(i));
        let ghost before = src.take(i as int);
        let ghost after = src.take(i + 1);
        proof {
            assert(after.drop_last() =~= before);
            assert(after.last() == c);
            lemma_words_nonempty(before);
            lemma_words_nonempty(after);
            lemma_joined_len(words(before), " "@);
            lemma_joined_len(words(after), " "@);
        }
        if crate::text::space(c) {
            gap = true;
        } else {
            if i == 0 || gap {
                if out.unicode_len() > 0 {
                    push_str(&mut out, " ");
                }
                crate::text::push_char(&mut out, c);
                proof {
                    let w = words(before);
                    assert(words(after) == w.push(seq![c]));
                    if w.len() > 0 {
                        assert(w.push(seq![c]).drop_last() =~= w);
                        reveal_strlit(" ");
                    } else {
                        assert(w.push(seq![c]) =~= seq![seq![c]]);
                    }
                }
            } else {
                crate::text::push_char(&mut out, c);
                proof {
                    lemma_joined_extend(words(before), " "@, c);
                }
            }
            gap = false;
        }
        i = i + 1;
    }
    proof {
        assert(src.take(n as int) =~= src);
    }
    let len = out.unicode_len();
    if len == 0 {
        return "Pasted Markdown".to_owned();
    }
    if len <= 48 {
        out
    } else {
        out.as_str().substring_char(0, 48).to_owned()
    }
}

} // verus!
