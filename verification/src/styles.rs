//! The stylesheet page: which styles are enabled and in what priority, the
//! order the page lists them in, and what enabling, disabling and moving one
//! does to the list.
use vstd::prelude::*;
use crate::text::str_equal;

verus! {

/// One stylesheet the page can list.
pub struct Entry {
    pub id: String,
    pub name: String,
    /// Why the sheet cannot be used, if it cannot.
    pub error: Option<String>,
}

/// Which list a stylesheet page edits: the reader's effective styles, or the
/// sequence one export layers on the print sheet.
#[derive(Clone, Copy, Debug, PartialEq, Eq, Structural)]
pub enum StylesTarget {
    Reader,
    Export,
}

/// What a control on the stylesheet page asks for.
#[derive(Clone, Copy, Debug, PartialEq, Eq, Structural)]
pub enum StyleCommand {
    StyleToggle(usize),
    StyleUp(usize),
    StyleDown(usize),
    ExportStyleToggle(usize),
    ExportStyleUp(usize),
    ExportStyleDown(usize),
    /// Back to the reader's settings.
    Styles,
    /// Back to the export panel.
    ExportStyles,
    SystemTheme,
}

/// The views of a list of texts.
pub open spec fn texts(v: Seq<String>) -> Seq<Seq<char>> {
    v.map_values(|s: String| s@)
}

/// The enabled ids, if the reader does not follow the system appearance.
pub open spec fn selection(selected: Option<&[String]>) -> Option<Seq<Seq<char>>> {
    match selected {
        Some(ids) => Some(texts(ids@)),
        None => None,
    }
}

/// Where `id` first occurs in `ids`.
pub open spec fn first_index(ids: Seq<Seq<char>>, id: Seq<char>) -> Option<int>
    decreases ids.len(),
{
    if ids.len() == 0 {
        None
    } else if ids[0] == id {
        Some(0)
    } else {
        match first_index(ids.drop_first(), id) {
            Some(i) => Some(i + 1),
            None => None,
        }
    }
}

/// `first_index` read as the first position that holds `id`.
pub proof fn lemma_first_index(ids: Seq<Seq<char>>, id: Seq<char>)
    ensures
        first_index(ids, id) matches Some(i) ==> 0 <= i < ids.len() && ids[i] == id && forall|
            j: int,
        | 0 <= j < i ==> ids[j] != id,
        first_index(ids, id) is None ==> forall|j: int| 0 <= j < ids.len() ==> ids[j] != id,
    decreases ids.len(),
{
    if ids.len() > 0 {
        lemma_first_index(ids.drop_first(), id);
        if ids[0] != id {
            assert forall|j: int| 1 <= j < ids.len() implies ids[j] == ids.drop_first()[j - 1] by {}
        }
    }
}

/// An entry's priority: where its id first occurs among the enabled ones.
pub open spec fn priority(selected: Option<Seq<Seq<char>>>, id: Seq<char>) -> Option<int> {
    match selected {
        Some(ids) => first_index(ids, id),
        None => None,
    }
}

pub(crate) fn find_id(ids: &[String], id: &str) -> (r: Option<usize>)
    ensures
        r matches Some(i) ==> first_index(texts(ids@), id@) == Some(i as int),
        r is None ==> first_index(texts(ids@), id@) is None,
{
    proof {
        lemma_first_index(texts(ids@), id@);
    }
    let mut i: usize = 0;
    while i < ids.len()
        invariant
            i <= ids@.len(),
            forall|j: int| 0 <= j < i ==> #[trigger] texts(ids@)[j] != id@,
            first_index(texts(ids@), id@) matches Some(k) ==> i <= k,
        decreases ids.len() - i,
    {
        proof {
            lemma_first_index(texts(ids@), id@);
            assert(texts(ids@)[i as int] == ids@[i as int]@);
        }
        if str_equal(ids[i].as_str(), id) {
            return Some(i);
        }
        i = i + 1;
    }
    None
}

/// One entry's priority, or `None` when it is not enabled.
pub fn position(selected: Option<&[String]>, entry: &Entry) -> (r: Option<usize>)
    ensures
        (match r {
            Some(i) => Some(i as int),
            None => None,
        }) == priority(selection(selected), entry.id@),
{
    match selected {
        Some(ids) => find_id(ids, entry.id.as_str()),
        None => None,
    }
}

/// The sort key of each entry: its priority, and past every priority when it
/// is not enabled.
pub open spec fn keys(selected: Option<Seq<Seq<char>>>, entries: Seq<Entry>) -> Seq<int> {
    Seq::new(
        entries.len(),
        |i: int|
            match priority(selected, entries[i].id@) {
                Some(p) => p,
                None => match selected {
                    Some(ids) => ids.len() as int,
                    None => 0,
                },
            },
    )
}

/// The indices below `n` whose key is `k`, in order.
pub open spec fn with_key(keys: Seq<int>, k: int, n: int) -> Seq<usize>
    decreases n,
{
    if n <= 0 {
        seq![]
    } else {
        with_key(keys, k, n - 1) + if keys[n - 1] == k {
            seq![(n - 1) as usize]
        } else {
            seq![]
        }
    }
}

/// The indices grouped by key, keys below `k` only, each group in order.
pub open spec fn grouped(keys: Seq<int>, k: int) -> Seq<usize>
    decreases k,
{
    if k <= 0 {
        seq![]
    } else {
        grouped(keys, k - 1) + with_key(keys, k - 1, keys.len() as int)
    }
}

/// The display order: enabled styles first, in priority order, then the rest,
/// each group in catalogue order.
pub open spec fn display_order(selected: Option<Seq<Seq<char>>>, entries: Seq<Entry>) -> Seq<
    usize,
> {
    let limit = match selected {
        Some(ids) => ids.len() as int,
        None => 0,
    };
    grouped(keys(selected, entries), limit + 1)
}

/// Appends the indices whose key is `k`, in order.
fn push_with_key(out: &mut Vec<usize>, key: &Vec<usize>, k: usize, Ghost(ks): Ghost<Seq<int>>)
    requires
        key@.len() == ks.len(),
        forall|j: int| 0 <= j < key@.len() ==> key@[j] == ks[j],
    ensures
        final(out)@ == old(out)@ + with_key(ks, k as int, ks.len() as int),
{
    let ghost start = out@;
    let mut j: usize = 0;
    while j < key.len()
        invariant
            key@.len() == ks.len(),
            forall|t: int| 0 <= t < key@.len() ==> key@[t] == ks[t],
            j <= key@.len(),
            out@ == start + with_key(ks, k as int, j as int),
        decreases key.len() - j,
    {
        if key[j] == k {
            out.push(j);
        }
        proof {
            assert(out@ =~= start + with_key(ks, k as int, j + 1));
        }
        j = j + 1;
    }
}

proof fn lemma_with_key(keys: Seq<int>, k: int, n: int)
    requires
        0 <= n <= keys.len(),
        keys.len() <= usize::MAX,
    ensures
        forall|t: int| 0 <= t < with_key(keys, k, n).len() ==> {
            let i = #[trigger] with_key(keys, k, n)[t] as int;
            0 <= i < n && keys[i] == k
        },
        forall|a: int, b: int|
            0 <= a < b < with_key(keys, k, n).len() ==> with_key(keys, k, n)[a] < with_key(
                keys,
                k,
                n,
            )[b],
        forall|i: int|
            0 <= i < n && #[trigger] keys[i] == k ==> with_key(keys, k, n).contains(i as usize),
    decreases n,
{
    if n > 0 {
        lemma_with_key(keys, k, n - 1);
        let w = with_key(keys, k, n);
        let wb = with_key(keys, k, n - 1);
        assert forall|t: int| 0 <= t < w.len() implies {
            let i = #[trigger] w[t] as int;
            0 <= i < n && keys[i] == k
        } by {
            if t < wb.len() {
                assert(w[t] == wb[t]);
            }
        }
        assert forall|a: int, b: int| 0 <= a < b < w.len() implies w[a] < w[b] by {
            assert(w[a] == wb[a]);
            if b < wb.len() {
                assert(w[b] == wb[b]);
            }
        }
        assert forall|i: int| 0 <= i < n && #[trigger] keys[i] == k implies w.contains(i as usize) by {
            if i < n - 1 {
                let t = choose|t: int| 0 <= t < wb.len() && wb[t] == i as usize;
                assert(w[t] == wb[t]);
            } else {
                assert(w[wb.len() as int] == i as usize);
            }
        }
    }
}

proof fn lemma_grouped(keys: Seq<int>, k: int)
    requires
        keys.len() <= usize::MAX,
    ensures
        forall|t: int| 0 <= t < grouped(keys, k).len() ==> {
            let i = #[trigger] grouped(keys, k)[t] as int;
            0 <= i < keys.len() && keys[i] < k
        },
        forall|a: int, b: int|
            0 <= a < b < grouped(keys, k).len() ==> grouped(keys, k)[a] != grouped(keys, k)[b],
        forall|i: int|
            0 <= i < keys.len() && 0 <= #[trigger] keys[i] < k ==> grouped(keys, k).contains(
                i as usize,
            ),
    decreases k,
{
    if k > 0 {
        lemma_grouped(keys, k - 1);
        let n = keys.len() as int;
        lemma_with_key(keys, k - 1, n);
        let g = grouped(keys, k);
        let gb = grouped(keys, k - 1);
        let w = with_key(keys, k - 1, n);
        assert forall|t: int| 0 <= t < g.len() implies {
            let i = #[trigger] g[t] as int;
            0 <= i < keys.len() && keys[i] < k
        } by {
            if t < gb.len() {
                assert(g[t] == gb[t]);
            } else {
                assert(g[t] == w[t - gb.len()]);
            }
        }
        assert forall|a: int, b: int| 0 <= a < b < g.len() implies g[a] != g[b] by {
            if b < gb.len() {
                assert(g[a] == gb[a] && g[b] == gb[b]);
            } else if a >= gb.len() {
                assert(g[a] == w[a - gb.len()] && g[b] == w[b - gb.len()]);
            } else {
                assert(g[a] == gb[a] && g[b] == w[b - gb.len()]);
                let ia = gb[a] as int;
                let ib = w[b - gb.len()] as int;
                assert(keys[ia] < k - 1);
                assert(keys[ib] == k - 1);
            }
        }
        assert forall|i: int| 0 <= i < keys.len() && 0 <= #[trigger] keys[i] < k implies g.contains(
            i as usize,
        ) by {
            if keys[i] < k - 1 {
                let t = choose|t: int| 0 <= t < gb.len() && gb[t] == i as usize;
                assert(g[t] == gb[t]);
            } else {
                let t = choose|t: int| 0 <= t < w.len() && w[t] == i as usize;
                assert(g[gb.len() + t] == w[t]);
            }
        }
    }
}

/// The page lists every entry exactly once: the display order holds each
/// catalogue position, and none twice.
pub proof fn every_entry_is_listed_once(
    selected: Option<Seq<Seq<char>>>,
    entries: Seq<Entry>,
)
    requires
        entries.len() <= usize::MAX,
    ensures
        forall|i: usize|
            0 <= i < entries.len() ==> #[trigger] display_order(selected, entries).contains(i),
        forall|t: int|
            0 <= t < display_order(selected, entries).len() ==> #[trigger] display_order(
                selected,
                entries,
            )[t] < entries.len(),
        forall|a: int, b: int|
            0 <= a < b < display_order(selected, entries).len() ==> display_order(
                selected,
                entries,
            )[a] != display_order(selected, entries)[b],
{
    let ks = keys(selected, entries);
    let limit = match selected {
        Some(ids) => ids.len() as int,
        None => 0,
    };
    lemma_grouped(ks, limit + 1);
    assert(display_order(selected, entries) == grouped(ks, limit + 1));
    assert forall|i: usize| 0 <= i < entries.len() implies #[trigger] display_order(
        selected,
        entries,
    ).contains(i) by {
        if let Some(ids) = selected {
            lemma_first_index(ids, entries[i as int].id@);
        }
        assert(0 <= ks[i as int] < limit + 1);
    }
}

/// The order the page lists the entries in: enabled styles first, in
/// priority order, then the rest.
pub fn style_order(selected: Option<&[String]>, entries: &[Entry]) -> (r: Vec<usize>)
    ensures
        r@ == display_order(selection(selected), entries@),
{
    let limit: usize = match selected {
        Some(ids) => ids.len(),
        None => 0,
    };
    let ghost ks = keys(selection(selected), entries@);
    let mut key: Vec<usize> = Vec::new();
    let mut i: usize = 0;
    while i < entries.len()
        invariant
            i <= entries@.len(),
            ks == keys(selection(selected), entries@),
            limit == (match selected {
                Some(ids) => ids@.len(),
                None => 0,
            }),
            key@.len() == i,
            forall|j: int| 0 <= j < i ==> key@[j] == ks[j] && key@[j] <= limit,
        decreases entries.len() - i,
    {
        let k = match position(selected, &entries[i]) {
            Some(p) => p,
            None => limit,
        };
        proof {
            if let Some(ids) = selected {
                lemma_first_index(texts(ids@), entries@[i as int].id@);
            }
        }
        key.push(k);
        i = i + 1;
    }
    let mut out: Vec<usize> = Vec::new();
    let mut k: usize = 0;
    while k < limit
        invariant
            k <= limit,
            key@.len() == entries@.len(),
            ks.len() == entries@.len(),
            forall|j: int| 0 <= j < key@.len() ==> key@[j] == ks[j],
            out@ == grouped(ks, k as int),
        decreases limit - k,
    {
        push_with_key(&mut out, &key, k, Ghost(ks));
        proof {
            assert(out@ =~= grouped(ks, k + 1));
        }
        k = k + 1;
    }
    push_with_key(&mut out, &key, limit, Ghost(ks));
    proof {
        assert(out@ =~= grouped(ks, limit + 1));
    }
    out
}

/// The line under the page's tabs.
pub open spec fn summary_text(target: StylesTarget, following_system: bool) -> Seq<char> {
    if target == StylesTarget::Reader && following_system {
        "Following system appearance · enable a style to customize"@
    } else {
        "Enabled styles come first · higher rows take priority"@
    }
}

impl StylesTarget {
    /// Enable or disable one entry.
    pub fn toggle(self, index: usize) -> (r: StyleCommand)
        ensures
            r == (match self {
                StylesTarget::Reader => StyleCommand::StyleToggle(index),
                StylesTarget::Export => StyleCommand::ExportStyleToggle(index),
            }),
    {
        match self {
            StylesTarget::Reader => StyleCommand::StyleToggle(index),
            StylesTarget::Export => StyleCommand::ExportStyleToggle(index),
        }
    }

    /// Raise one entry's priority.
    pub fn up(self, index: usize) -> (r: StyleCommand)
        ensures
            r == (match self {
                StylesTarget::Reader => StyleCommand::StyleUp(index),
                StylesTarget::Export => StyleCommand::ExportStyleUp(index),
            }),
    {
        match self {
            StylesTarget::Reader => StyleCommand::StyleUp(index),
            StylesTarget::Export => StyleCommand::ExportStyleUp(index),
        }
    }

    /// Lower one entry's priority.
    pub fn down(self, index: usize) -> (r: StyleCommand)
        ensures
            r == (match self {
                StylesTarget::Reader => StyleCommand::StyleDown(index),
                StylesTarget::Export => StyleCommand::ExportStyleDown(index),
            }),
    {
        match self {
            StylesTarget::Reader => StyleCommand::StyleDown(index),
            StylesTarget::Export => StyleCommand::ExportStyleDown(index),
        }
    }

    /// The page's Back button returns to the panel that opened it.
    pub fn back(self) -> (r: StyleCommand)
        ensures
            r == (match self {
                StylesTarget::Reader => StyleCommand::Styles,
                StylesTarget::Export => StyleCommand::ExportStyles,
            }),
    {
        match self {
            StylesTarget::Reader => StyleCommand::Styles,
            StylesTarget::Export => StyleCommand::ExportStyles,
        }
    }

    /// Only the reader can follow the system theme.
    pub fn system(self) -> (r: Option<StyleCommand>)
        ensures
            r == (if self == StylesTarget::Reader {
                Some(StyleCommand::SystemTheme)
            } else {
                None
            }),
    {
        if self == StylesTarget::Reader {
            Some(StyleCommand::SystemTheme)
        } else {
            None
        }
    }

    /// The line under the page's tabs; `selected` is `None` while the reader
    /// follows the system appearance.
    pub fn summary(self, selected: Option<&[String]>) -> (r: &'static str)
        ensures
            r@ == summary_text(self, selected is None),
    {
        match self {
            StylesTarget::Reader if selected.is_none() => {
                "Following system appearance · enable a style to customize"
            },
            _ => "Enabled styles come first · higher rows take priority",
        }
    }
}

/// The controls one row of the page offers.
#[derive(Clone, Copy, Debug, PartialEq, Eq, Structural)]
pub struct RowControls {
    /// The toggle, when it is offered, and whether it reads `Disable`.
    pub toggle: Option<bool>,
    pub up: bool,
    pub down: bool,
}

/// A row's controls: an enabled entry can always be disabled, a broken one
/// cannot be enabled, and the arrows only move an enabled entry where there is
/// room.
pub open spec fn row_controls_of(selected: Option<Seq<Seq<char>>>, entry: Entry) -> RowControls {
    let pos = priority(selected, entry.id@);
    RowControls {
        toggle: if entry.error is None || pos is Some {
            Some(pos is Some)
        } else {
            None
        },
        up: match pos {
            Some(p) => p > 0,
            None => false,
        },
        down: match (pos, selected) {
            (Some(p), Some(ids)) => ids.len() > 0 && p < ids.len() - 1,
            _ => false,
        },
    }
}

/// Which controls a row of the stylesheet page offers.
pub fn row_controls(selected: Option<&[String]>, entry: &Entry) -> (r: RowControls)
    ensures
        r == row_controls_of(selection(selected), *entry),
{
    let pos = position(selected, entry);
    proof {
        if let Some(ids) = selected {
            lemma_first_index(texts(ids@), entry.id@);
        }
    }
    let toggle = if entry.error.is_none() || pos.is_some() {
        Some(pos.is_some())
    } else {
        None
    };
    let up = match pos {
        Some(p) => p > 0,
        None => false,
    };
    let down = match (pos, selected) {
        (Some(p), Some(ids)) => ids.len() > 0 && p < ids.len() - 1,
        _ => false,
    };
    RowControls { toggle, up, down }
}

/// The label of a row's toggle.
pub fn toggle_label(enabled: bool) -> (r: &'static str)
    ensures
        r@ == (if enabled {
            "Disable"@
        } else {
            "Enable"@
        }),
{
    if enabled {
        "Disable"
    } else {
        "Enable"
    }
}

/// What a row's control does to the enabled list.
#[derive(Clone, Copy, Debug, PartialEq, Eq, Structural)]
pub enum StyleEdit {
    Toggle,
    Up,
    Down,
}

/// `ids` without any copy of `id`.
pub open spec fn without(ids: Seq<Seq<char>>, id: Seq<char>) -> Seq<Seq<char>>
    decreases ids.len(),
{
    if ids.len() == 0 {
        seq![]
    } else {
        without(ids.drop_last(), id) + if ids.last() == id {
            seq![]
        } else {
            seq![ids.last()]
        }
    }
}

/// `ids` with the items at `i` and `j` exchanged.
pub open spec fn swapped(ids: Seq<Seq<char>>, i: int, j: int) -> Seq<Seq<char>> {
    ids.update(i, ids[j]).update(j, ids[i])
}

/// The enabled list after one control, or `None` when the control does
/// nothing: a broken sheet cannot be enabled. Enabling puts the sheet first,
/// disabling removes every copy of it, and the arrows exchange it with its
/// neighbour when there is one.
pub open spec fn edited(ids: Seq<Seq<char>>, id: Seq<char>, usable: bool, edit: StyleEdit) -> Option<
    Seq<Seq<char>>,
> {
    let pos = first_index(ids, id);
    match edit {
        StyleEdit::Toggle => match pos {
            Some(_) => Some(without(ids, id)),
            None => if usable {
                Some(seq![id] + ids)
            } else {
                None
            },
        },
        StyleEdit::Up => match pos {
            Some(i) if i > 0 => Some(swapped(ids, i, i - 1)),
            _ => Some(ids),
        },
        StyleEdit::Down => match pos {
            Some(i) if i + 1 < ids.len() => Some(swapped(ids, i, i + 1)),
            _ => Some(ids),
        },
    }
}

pub(crate) fn remove_all(ids: &Vec<String>, id: &str) -> (r: Vec<String>)
    ensures
        texts(r@) == without(texts(ids@), id@),
{
    let mut out: Vec<String> = Vec::new();
    let mut i: usize = 0;
    while i < ids.len()
        invariant
            i <= ids@.len(),
            texts(out@) == without(texts(ids@).take(i as int), id@),
        decreases ids.len() - i,
    {
        proof {
            assert(texts(ids@).take(i + 1).drop_last() =~= texts(ids@).take(i as int));
            assert(texts(ids@).take(i + 1).last() == ids@[i as int]@);
        }
        if !str_equal(ids[i].as_str(), id) {
            out.push(ids[i].clone());
        }
        proof {
            assert(texts(out@) =~= without(texts(ids@).take(i + 1), id@));
        }
        i = i + 1;
    }
    proof {
        assert(texts(ids@).take(ids@.len() as int) =~= texts(ids@));
    }
    out
}

/// Applies one row control to the enabled list (`None` when the reader
/// follows the system appearance, which reads as an empty list). Returns the
/// new list, or `None` when the control changes nothing and no setting moves.
pub fn edit_styles(selected: Option<Vec<String>>, entry: &Entry, edit: StyleEdit) -> (r: Option<
    Vec<String>,
>)
    ensures
        (match r {
            Some(v) => Some(texts(v@)),
            None => None,
        }) == edited(
            match selected {
                Some(v) => texts(v@),
                None => seq![],
            },
            entry.id@,
            entry.error is None,
            edit,
        ),
{
    let mut ids: Vec<String> = match selected {
        Some(v) => v,
        None => Vec::new(),
    };
    let ghost start = texts(ids@);
    let pos = find_id(ids.as_slice(), entry.id.as_str());
    proof {
        lemma_first_index(start, entry.id@);
    }
    match edit {
        StyleEdit::Toggle => {
            if pos.is_some() {
                return Some(remove_all(&ids, entry.id.as_str()));
            } else if entry.error.is_none() {
                ids.insert(0, entry.id.clone());
                proof {
                    assert(texts(ids@) =~= seq![entry.id@] + start);
                }
                return Some(ids);
            } else {
                return None;
            }
        },
        StyleEdit::Up => {
            if let Some(i) = pos {
                if i > 0 {
                    let a = ids[i].clone();
                    let b = ids[i - 1].clone();
                    ids.set(i, b);
                    ids.set(i - 1, a);
                    proof {
                        assert(texts(ids@) =~= swapped(start, i as int, i - 1));
                    }
                }
            }
            Some(ids)
        },
        StyleEdit::Down => {
            if let Some(i) = pos {
                if ids.len() > 0 && i < ids.len() - 1 {
                    let a = ids[i].clone();
                    let b = ids[i + 1].clone();
                    ids.set(i, b);
                    ids.set(i + 1, a);
                    proof {
                        assert(texts(ids@) =~= swapped(start, i as int, i + 1));
                    }
                }
            }
            Some(ids)
        },
    }
}

proof fn lemma_without_absent(ids: Seq<Seq<char>>, id: Seq<char>)
    requires
        first_index(ids, id) is None,
    ensures
        without(ids, id) == ids,
    decreases ids.len(),
{
    lemma_first_index(ids, id);
    if ids.len() > 0 {
        lemma_first_index(ids.drop_last(), id);
        if let Some(i) = first_index(ids.drop_last(), id) {
            assert(ids[i] == ids.drop_last()[i]);
        }
        lemma_without_absent(ids.drop_last(), id);
        assert(ids.drop_last().push(ids.last()) =~= ids);
    }
}

proof fn lemma_without_front(ids: Seq<Seq<char>>, id: Seq<char>)
    ensures
        without(seq![id] + ids, id) == without(ids, id),
    decreases ids.len(),
{
    if ids.len() == 0 {
        assert(without(seq![id], id) =~= seq![]) by {
            assert(seq![id].drop_last() =~= seq![]);
            assert(without(seq![], id) =~= seq![]);
        }
    } else {
        lemma_without_front(ids.drop_last(), id);
        assert((seq![id] + ids).drop_last() =~= seq![id] + ids.drop_last());
    }
}

/// Enabling a sheet and disabling it again gives back the list it started
/// from.
pub proof fn enable_then_disable_restores(ids: Seq<Seq<char>>, id: Seq<char>)
    requires
        first_index(ids, id) is None,
    ensures
        edited(ids, id, true, StyleEdit::Toggle) == Some(seq![id] + ids),
        edited(seq![id] + ids, id, true, StyleEdit::Toggle) == Some(ids),
{
    assert(first_index(seq![id] + ids, id) == Some(0int));
    lemma_without_front(ids, id);
    lemma_without_absent(ids, id);
}

/// Disabling a sheet leaves no copy of it in the list, and keeps every other
/// sheet.
pub proof fn disable_removes_every_copy(ids: Seq<Seq<char>>, id: Seq<char>, usable: bool)
    requires
        first_index(ids, id) is Some,
    ensures
        edited(ids, id, usable, StyleEdit::Toggle) matches Some(after) && forall|j: int|
            0 <= j < after.len() ==> after[j] != id,
        edited(ids, id, usable, StyleEdit::Toggle) matches Some(after) && forall|j: int|
            0 <= j < ids.len() && ids[j] != id ==> after.contains(ids[j]),
    decreases ids.len(),
{
    lemma_without_facts(ids, id);
}

pub(crate) proof fn lemma_without_facts(ids: Seq<Seq<char>>, id: Seq<char>)
    ensures
        forall|j: int| 0 <= j < without(ids, id).len() ==> without(ids, id)[j] != id,
        forall|j: int| 0 <= j < ids.len() && ids[j] != id ==> without(ids, id).contains(ids[j]),
    decreases ids.len(),
{
    if ids.len() > 0 {
        lemma_without_facts(ids.drop_last(), id);
        let w = without(ids.drop_last(), id);
        assert forall|j: int| 0 <= j < ids.len() && ids[j] != id implies without(
            ids,
            id,
        ).contains(ids[j]) by {
            if j < ids.len() - 1 {
                assert(ids[j] == ids.drop_last()[j]);
                let k = choose|k: int| 0 <= k < w.len() && w[k] == ids[j];
                assert(without(ids, id)[k] == w[k]);
            } else {
                assert(without(ids, id)[w.len() as int] == ids[j]);
            }
        }
    }
}

pub(crate) proof fn lemma_without_subset(ids: Seq<Seq<char>>, id: Seq<char>)
    ensures
        forall|x: Seq<char>| #[trigger] without(ids, id).contains(x) ==> ids.contains(x),
    decreases ids.len(),
{
    if ids.len() > 0 {
        let before = ids.drop_last();
        lemma_without_subset(before, id);
        let w = without(ids, id);
        let wb = without(before, id);
        assert forall|x: Seq<char>| w.contains(x) implies ids.contains(x) by {
            let k = choose|k: int| 0 <= k < w.len() && w[k] == x;
            if k < wb.len() {
                assert(wb[k] == x);
                assert(wb.contains(x));
                assert(before.contains(x));
                let t = choose|t: int| 0 <= t < before.len() && before[t] == x;
                assert(ids[t] == before[t]);
            } else {
                assert(ids[ids.len() - 1] == x);
            }
        }
    }
}

/// Moving a sheet up and then down again gives back the list it started
/// from.
pub proof fn up_then_down_restores(ids: Seq<Seq<char>>, id: Seq<char>, usable: bool)
    requires
        first_index(ids, id) matches Some(i) && i > 0,
    ensures
        edited(ids, id, usable, StyleEdit::Up) matches Some(raised) && edited(
            raised,
            id,
            usable,
            StyleEdit::Down,
        ) == Some(ids),
{
    lemma_first_index(ids, id);
    let i = first_index(ids, id)->0;
    let raised = swapped(ids, i, i - 1);
    lemma_first_index(raised, id);
    assert(raised[i - 1] == id);
    assert forall|j: int| 0 <= j < i - 1 implies raised[j] != id by {
        assert(raised[j] == ids[j]);
    }
    assert(first_index(raised, id) == Some(i - 1)) by {
        if let Some(k) = first_index(raised, id) {
            assert(k == i - 1);
        }
    }
    assert(swapped(raised, i - 1, i) =~= ids);
}

} // verus!
