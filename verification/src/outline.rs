//! The outline drawer's keyboard selection and focus, kept on rows that
//! exist when the outline changes.
use vstd::prelude::*;

verus! {

/// What holds keyboard focus, as far as the drawer is concerned.
#[derive(Clone, Copy, Debug, PartialEq, Eq, Structural)]
pub enum OutlineFocus {
    /// An entry's row, which jumps to it.
    Goto(usize),
    /// An entry's disclosure triangle.
    Toggle(usize),
    /// Some control outside the drawer.
    Elsewhere,
}

/// How many leading `rows` are at most `limit`.
pub open spec fn leading_upto(rows: Seq<usize>, limit: int) -> int
    decreases rows.len(),
{
    if rows.len() == 0 || rows[0] > limit {
        0
    } else {
        1 + leading_upto(rows.drop_first(), limit)
    }
}

/// The selection after the rows change: the last of the leading rows at or
/// before the old selection (an empty selection counts as entry 0), else the
/// first row, else nothing.
pub open spec fn kept_selection(rows: Seq<usize>, selection: Option<usize>) -> Option<usize> {
    let limit = match selection {
        Some(s) => s as int,
        None => 0,
    };
    let n = leading_upto(rows, limit);
    if n > 0 {
        Some(rows[n - 1])
    } else if rows.len() > 0 {
        Some(rows[0])
    } else {
        None
    }
}

/// The focus after the rows change: a drawer row that is gone hands focus to
/// the new selection's row; anything else keeps it.
pub open spec fn kept_focus(rows: Seq<usize>, focus: OutlineFocus, selection: Option<usize>) -> Option<
    OutlineFocus,
> {
    match focus {
        OutlineFocus::Goto(i) | OutlineFocus::Toggle(i) => if rows.contains(i) {
            Some(focus)
        } else {
            match selection {
                Some(s) => Some(OutlineFocus::Goto(s)),
                None => None,
            }
        },
        OutlineFocus::Elsewhere => Some(focus),
    }
}

proof fn lemma_leading(rows: Seq<usize>, limit: int)
    ensures
        0 <= leading_upto(rows, limit) <= rows.len(),
        forall|j: int| 0 <= j < leading_upto(rows, limit) ==> rows[j] <= limit,
        leading_upto(rows, limit) < rows.len() ==> rows[leading_upto(rows, limit)] > limit,
    decreases rows.len(),
{
    if rows.len() > 0 && rows[0] <= limit {
        lemma_leading(rows.drop_first(), limit);
        assert forall|j: int| 1 <= j < rows.len() implies rows[j] == rows.drop_first()[j - 1] by {}
    }
}

proof fn lemma_leading_from(rows: Seq<usize>, limit: int, n: int)
    requires
        0 <= n <= rows.len(),
        forall|j: int| 0 <= j < n ==> rows[j] <= limit,
        n == rows.len() || rows[n] > limit,
    ensures
        leading_upto(rows, limit) == n,
    decreases n,
{
    if n > 0 {
        assert forall|j: int| 0 <= j < n - 1 implies rows.drop_first()[j] <= limit by {
            assert(rows.drop_first()[j] == rows[j + 1]);
        }
        if n < rows.len() {
            assert(rows.drop_first()[n - 1] == rows[n]);
        }
        lemma_leading_from(rows.drop_first(), limit, n - 1);
    }
}

/// The drawer's selection once the outline holds `rows` (entry indices, in
/// order).
fn keep_selection(rows: &[usize], selection: Option<usize>) -> (r: Option<usize>)
    ensures
        r == kept_selection(rows@, selection),
{
    let limit: usize = match selection {
        Some(s) => s,
        None => 0,
    };
    let mut n: usize = 0;
    while n < rows.len() && rows[n] <= limit
        invariant
            n <= rows@.len(),
            forall|j: int| 0 <= j < n ==> rows@[j] <= limit,
        decreases rows.len() - n,
    {
        n = n + 1;
    }
    proof {
        lemma_leading_from(rows@, limit as int, n as int);
    }
    if n > 0 {
        Some(rows[n - 1])
    } else if rows.len() > 0 {
        Some(rows[0])
    } else {
        None
    }
}

/// The focus once the outline holds `rows`; `selection` is the kept
/// selection. `None` means no control holds focus.
fn keep_focus(rows: &[usize], focus: OutlineFocus, selection: Option<usize>) -> (r: Option<
    OutlineFocus,
>)
    ensures
        r == kept_focus(rows@, focus, selection),
{
    let index = match focus {
        OutlineFocus::Goto(i) => i,
        OutlineFocus::Toggle(i) => i,
        OutlineFocus::Elsewhere => {
            return Some(focus);
        },
    };
    let mut j: usize = 0;
    while j < rows.len()
        invariant
            j <= rows@.len(),
            forall|k: int| 0 <= k < j ==> rows@[k] != index,
            focus == OutlineFocus::Goto(index) || focus == OutlineFocus::Toggle(index),
        decreases rows.len() - j,
    {
        if rows[j] == index {
            proof {
                assert(rows@.contains(index));
            }
            return Some(focus);
        }
        j = j + 1;
    }
    match selection {
        Some(s) => Some(OutlineFocus::Goto(s)),
        None => None,
    }
}

/// Keeps the drawer's selection and focus on rows that exist once the
/// outline holds `rows` (entry indices, in order): the selection moves to the
/// nearest row at or before it, and a focused row that is gone hands focus to
/// the selection. `focus` is `None` when nothing holds focus.
pub fn normalize(rows: &[usize], selection: Option<usize>, focus: Option<OutlineFocus>) -> (r: (
    Option<usize>,
    Option<OutlineFocus>,
))
    ensures
        r.0 == kept_selection(rows@, selection),
        r.1 == (match focus {
            Some(f) => kept_focus(rows@, f, r.0),
            None => None,
        }),
{
    let kept = keep_selection(rows, selection);
    let focus = match focus {
        Some(f) => keep_focus(rows, f, kept),
        None => None,
    };
    (kept, focus)
}

/// The kept selection is always one of the rows, and there is one whenever
/// there is a row.
pub proof fn the_selection_stays_on_a_row(rows: Seq<usize>, selection: Option<usize>)
    ensures
        kept_selection(rows, selection) matches Some(s) ==> rows.contains(s),
        rows.len() > 0 <==> kept_selection(rows, selection) is Some,
{
    let limit = match selection {
        Some(s) => s as int,
        None => 0,
    };
    lemma_leading(rows, limit);
    let n = leading_upto(rows, limit);
    if n > 0 {
        assert(rows[n - 1] == rows[n - 1]);
        assert(rows.contains(rows[n - 1]));
    } else if rows.len() > 0 {
        assert(rows.contains(rows[0]));
    }
}

/// Focus on a drawer row that is still there stays exactly where it was,
/// whatever the selection; focus outside the drawer is never touched; only a
/// focused row that is gone hands focus on, to the selection's row.
pub proof fn a_focused_row_that_remains_keeps_focus(
    rows: Seq<usize>,
    focus: OutlineFocus,
    selection: Option<usize>,
)
    ensures
        focus matches OutlineFocus::Goto(i) && rows.contains(i) ==> kept_focus(rows, focus, selection)
            == Some(focus),
        focus matches OutlineFocus::Toggle(i) && rows.contains(i) ==> kept_focus(rows, focus, selection)
            == Some(focus),
        focus == OutlineFocus::Elsewhere ==> kept_focus(rows, focus, selection) == Some(focus),
        kept_focus(rows, focus, selection) != Some(focus) ==> {
            &&& focus != OutlineFocus::Elsewhere
            &&& kept_focus(rows, focus, selection) == match selection {
                Some(s) => Some(OutlineFocus::Goto(s)),
                None => None,
            }
        },
{
}

/// With the rows in order, the kept selection is the nearest row at or before
/// the old selection, when there is one; otherwise it is the first row.
pub proof fn the_selection_moves_back_to_the_nearest_row(rows: Seq<usize>, s: usize)
    requires
        forall|i: int, j: int| 0 <= i < j < rows.len() ==> rows[i] < rows[j],
        rows.len() > 0,
    ensures
        rows[0] <= s ==> (kept_selection(rows, Some(s)) matches Some(k) && k <= s && forall|j: int|
            0 <= j < rows.len() && rows[j] <= s ==> rows[j] <= k),
        rows[0] > s ==> kept_selection(rows, Some(s)) == Some(rows[0]),
{
    lemma_leading(rows, s as int);
    let n = leading_upto(rows, s as int);
    if rows[0] <= s {
        assert(n > 0);
        assert forall|j: int| 0 <= j < rows.len() && #[trigger] rows[j] <= s implies rows[j] <= rows[n - 1] by {
            if j >= n {
                if j > n {
                    assert(rows[n] < rows[j]);
                }
            } else if j < n - 1 {
                assert(rows[j] < rows[n - 1]);
            }
        }
    } else {
        assert(n == 0);
    }
}

/// A selection that is still a row stays where it is, when the rows are in
/// order.
pub proof fn a_selection_on_a_row_is_kept(rows: Seq<usize>, s: usize)
    requires
        forall|i: int, j: int| 0 <= i < j < rows.len() ==> rows[i] < rows[j],
        rows.contains(s),
    ensures
        kept_selection(rows, Some(s)) == Some(s),
{
    let k = choose|k: int| 0 <= k < rows.len() && rows[k] == s;
    assert forall|j: int| 0 <= j < k + 1 implies rows[j] <= s as int by {
        if j < k {
            assert(rows[j] < rows[k]);
        }
    }
    if k + 1 < rows.len() {
        assert(rows[k] < rows[k + 1]);
    }
    lemma_leading_from(rows, s as int, k + 1);
}

} // verus!
