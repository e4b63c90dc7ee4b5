//! Which search match the next step of navigation lands on.
use vstd::prelude::*;

verus! {

/// One match of a search: where it is and which collapsed sections enclose
/// it.
pub struct SearchMatch {
    pub block: usize,
    /// The text field within the block.
    pub field: usize,
    pub start: usize,
    pub end: usize,
    /// The disclosure sections that must open to show the match.
    pub enclosing: Vec<usize>,
}

/// Where a match is, the order matches come in.
pub open spec fn key_of(m: SearchMatch) -> (int, int, int) {
    (m.block as int, m.field as int, m.start as int)
}

/// `a` comes before `b` in document order.
pub open spec fn before(a: (int, int, int), b: (int, int, int)) -> bool {
    a.0 < b.0 || (a.0 == b.0 && (a.1 < b.1 || (a.1 == b.1 && a.2 < b.2)))
}

/// Two matches are the same match.
pub open spec fn same_match(a: SearchMatch, b: SearchMatch) -> bool {
    &&& key_of(a) == key_of(b)
    &&& a.end == b.end
    &&& a.enclosing@ == b.enclosing@
}

/// The matches come in document order, each at its own place.
pub open spec fn in_order(ms: Seq<SearchMatch>) -> bool {
    forall|i: int, j: int| 0 <= i < j < ms.len() ==> before(key_of(ms[i]), key_of(ms[j]))
}

fn precedes(a: &SearchMatch, b: &SearchMatch) -> (r: bool)
    ensures
        r == before(key_of(*a), key_of(*b)),
{
    a.block < b.block || (a.block == b.block && (a.field < b.field || (a.field == b.field
        && a.start < b.start)))
}

fn equal_match(a: &SearchMatch, b: &SearchMatch) -> (r: bool)
    ensures
        r == same_match(*a, *b),
{
    if a.block != b.block || a.field != b.field || a.start != b.start || a.end != b.end {
        return false;
    }
    let n = a.enclosing.len();
    if n != b.enclosing.len() {
        return false;
    }
    let mut i: usize = 0;
    while i < n
        invariant
            n == a.enclosing@.len(),
            n == b.enclosing@.len(),
            i <= n,
            forall|k: int| 0 <= k < i ==> a.enclosing@[k] == b.enclosing@[k],
        decreases n - i,
    {
        if a.enclosing[i] != b.enclosing[i] {
            return false;
        }
        i = i + 1;
    }
    assert(a.enclosing@ =~= b.enclosing@);
    true
}

/// The current match after the matches were found again: the same match
/// in the new list, found by where it is, or nothing when it is gone.
pub fn retained_index(matches: &[SearchMatch], old: &SearchMatch) -> (r: Option<usize>)
    requires
        in_order(matches@),
    ensures
        r matches Some(i) ==> i < matches@.len() && same_match(matches@[i as int], *old),
        r is None ==> forall|i: int| 0 <= i < matches@.len() ==> !same_match(matches@[i], *old),
{
    let mut lo: usize = 0;
    let mut hi: usize = matches.len();
    while lo < hi
        invariant
            in_order(matches@),
            lo <= hi <= matches@.len(),
            forall|i: int| 0 <= i < lo ==> before(key_of(matches@[i]), key_of(*old)),
            forall|i: int| hi <= i < matches@.len() ==> before(key_of(*old), key_of(matches@[i])),
        decreases hi - lo,
    {
        let mid = lo + (hi - lo) / 2;
        if precedes(&matches[mid], old) {
            proof {
                assert forall|i: int| 0 <= i < mid + 1 implies before(
                    key_of(matches@[i]),
                    key_of(*old),
                ) by {
                    if i < mid {
                        assert(before(key_of(matches@[i]), key_of(matches@[mid as int])));
                    }
                }
            }
            lo = mid + 1;
        } else if precedes(old, &matches[mid]) {
            proof {
                assert forall|i: int| mid <= i < matches@.len() implies before(
                    key_of(*old),
                    key_of(matches@[i]),
                ) by {
                    if i > mid {
                        assert(before(key_of(matches@[mid as int]), key_of(matches@[i])));
                    }
                }
            }
            hi = mid;
        } else {
            proof {
                assert(key_of(matches@[mid as int]) == key_of(*old));
                assert forall|i: int| 0 <= i < matches@.len() && i != mid implies key_of(
                    matches@[i],
                ) != key_of(*old) by {
                    if i < mid {
                        assert(before(key_of(matches@[i]), key_of(matches@[mid as int])));
                    } else {
                        assert(before(key_of(matches@[mid as int]), key_of(matches@[i])));
                    }
                }
            }
            if equal_match(&matches[mid], old) {
                return Some(mid);
            }
            return None;
        }
    }
    None
}

/// What a finished search was asked for.
pub struct Stamp {
    pub path: String,
    /// The content version of the document it searched.
    pub content: u64,
    /// The request it answers.
    pub sequence: u64,
}

/// A search result is shown only when it answers the session's latest
/// request about the document as it is now.
pub open spec fn is_fresh(path: Option<Seq<char>>, content: u64, sequence: u64, s: Stamp) -> bool {
    &&& path == Some(s.path@)
    &&& content == s.content
    &&& sequence == s.sequence
}

/// Whether a finished search still answers the session: same document, same
/// content, latest request.
pub fn fresh(path: Option<&str>, content: u64, sequence: u64, result: &Stamp) -> (r: bool)
    ensures
        r == is_fresh(
            match path {
                Some(p) => Some(p@),
                None => None,
            },
            content,
            sequence,
            *result,
        ),
{
    match path {
        Some(p) => crate::text::str_equal(p, result.path.as_str()) && content == result.content
            && sequence == result.sequence,
        None => false,
    }
}

/// The latest request wins: once the query changed, a result for any earlier
/// request is dropped, and so is one about content the document no longer
/// has.
pub proof fn the_latest_query_wins(path: Option<Seq<char>>, content: u64, sequence: u64, s: Stamp)
    ensures
        s.sequence < sequence ==> !is_fresh(path, content, sequence, s),
        s.content != content ==> !is_fresh(path, content, sequence, s),
{
}

/// The first index whose flag is set, if any.
pub open spec fn first_set(flags: Seq<bool>) -> Option<int>
    decreases flags.len(),
{
    if flags.len() == 0 {
        None
    } else if flags[0] {
        Some(0)
    } else {
        match first_set(flags.drop_first()) {
            Some(i) => Some(i + 1),
            None => None,
        }
    }
}

/// The last index whose flag is set, if any.
pub open spec fn last_set(flags: Seq<bool>) -> Option<int>
    decreases flags.len(),
{
    if flags.len() == 0 {
        None
    } else if flags.last() {
        Some(flags.len() - 1)
    } else {
        last_set(flags.drop_last())
    }
}

/// The match a step lands on. From a current match it moves one along,
/// wrapping at either end. Without one it starts where the reader is:
/// stepping forward, at the first match at or below the top of the view;
/// stepping back, at the last one at or above it. `reached[i]` says whether
/// match `i` is on the side of the view the step looks at.
pub open spec fn step_target(current: Option<usize>, count: nat, backwards: bool, reached: Seq<
    bool,
>) -> int {
    match current {
        Some(i) => if backwards {
            (i + count - 1) % (count as int)
        } else {
            (i + 1) % (count as int)
        },
        None => if backwards {
            match last_set(reached) {
                Some(i) => i,
                None => count - 1,
            }
        } else {
            match first_set(reached) {
                Some(i) => i,
                None => 0,
            }
        },
    }
}

proof fn lemma_first_set(flags: Seq<bool>)
    ensures
        first_set(flags) matches Some(i) ==> 0 <= i < flags.len() && flags[i] && forall|j: int|
            0 <= j < i ==> !flags[j],
        first_set(flags) is None ==> forall|j: int| 0 <= j < flags.len() ==> !flags[j],
    decreases flags.len(),
{
    if flags.len() > 0 {
        lemma_first_set(flags.drop_first());
        assert forall|j: int| 1 <= j < flags.len() implies flags[j] == flags.drop_first()[j - 1] by {}
    }
}

proof fn lemma_last_set(flags: Seq<bool>)
    ensures
        last_set(flags) matches Some(i) ==> 0 <= i < flags.len() && flags[i] && forall|j: int|
            i < j < flags.len() ==> !flags[j],
        last_set(flags) is None ==> forall|j: int| 0 <= j < flags.len() ==> !flags[j],
    decreases flags.len(),
{
    if flags.len() > 0 {
        lemma_last_set(flags.drop_last());
        assert forall|j: int| 0 <= j < flags.len() - 1 implies flags[j] == flags.drop_last()[j] by {}
    }
}

/// The index the next search step selects among `count` matches.
pub fn next_match(current: Option<usize>, count: usize, backwards: bool, reached: &[bool]) -> (r:
    usize)
    requires
        count > 0,
        reached@.len() == count,
        current matches Some(i) ==> i < count,
    ensures
        r < count,
        r == step_target(current, count as nat, backwards, reached@),
{
    match current {
        Some(i) => {
            proof {
                let c = count as int;
                if i == 0 {
                    assert((i + c - 1) % c == c - 1) by (nonlinear_arith)
                        requires
                            i == 0,
                            c > 0,
                    ;
                } else {
                    assert((i + c - 1) % c == i - 1) by (nonlinear_arith)
                        requires
                            0 < i < c,
                    ;
                }
                if i + 1 == c {
                    assert((i + 1) % c == 0) by (nonlinear_arith)
                        requires
                            i + 1 == c,
                    ;
                } else {
                    assert((i + 1) % c == i + 1) by (nonlinear_arith)
                        requires
                            0 <= i + 1 < c,
                    ;
                }
            }
            if backwards {
                if i == 0 {
                    count - 1
                } else {
                    i - 1
                }
            } else if i + 1 == count {
                0
            } else {
                i + 1
            }
        },
        None => {
            proof {
                lemma_first_set(reached@);
                lemma_last_set(reached@);
            }
            if backwards {
                let mut j: usize = count;
                while j > 0
                    invariant
                        j <= count,
                        reached@.len() == count,
                        forall|k: int| j <= k < count ==> !reached@[k],
                        last_set(reached@) matches Some(t) ==> t < j,
                        current is None,
                        backwards,
                    decreases j,
                {
                    proof {
                        lemma_last_set(reached@);
                    }
                    if reached[j - 1] {
                        return j - 1;
                    }
                    j = j - 1;
                }
                count - 1
            } else {
                let mut j: usize = 0;
                while j < count
                    invariant
                        j <= count,
                        reached@.len() == count,
                        forall|k: int| 0 <= k < j ==> !reached@[k],
                        first_set(reached@) matches Some(t) ==> t >= j,
                        current is None,
                        !backwards,
                    decreases count - j,
                {
                    proof {
                        lemma_first_set(reached@);
                    }
                    if reached[j] {
                        return j;
                    }
                    j = j + 1;
                }
                0
            }
        },
    }
}

/// A step forward and a step back return to the match they started from,
/// and so does a step back and a step forward.
pub proof fn stepping_there_and_back_returns(i: usize, count: usize, reached: Seq<bool>)
    requires
        i < count,
    ensures
        step_target(
            Some(step_target(Some(i), count as nat, false, reached) as usize),
            count as nat,
            true,
            reached,
        ) == i,
        step_target(
            Some(step_target(Some(i), count as nat, true, reached) as usize),
            count as nat,
            false,
            reached,
        ) == i,
{
    let c = count as int;
    let f = (i + 1) % c;
    let b = (i + c - 1) % c;
    assert(0 <= f < c && 0 <= b < c) by (nonlinear_arith)
        requires
            c > 0,
            f == (i + 1) % c,
            b == (i + c - 1) % c,
    ;
    assert((f + c - 1) % c == i) by (nonlinear_arith)
        requires
            c > 0,
            0 <= i < c,
            f == (i + 1) % c,
    ;
    assert((b + 1) % c == i) by (nonlinear_arith)
        requires
            c > 0,
            0 <= i < c,
            b == (i + c - 1) % c,
    ;
}

/// Every match is reached by stepping forward from the one before it, so
/// `count` steps forward visit each match once and return to the start.
pub proof fn stepping_forward_visits_every_match(i: usize, count: usize, reached: Seq<bool>)
    requires
        i < count,
    ensures
        step_target(Some(i), count as nat, false, reached) == if i + 1 == count {
            0
        } else {
            i + 1
        },
{
    let c = count as int;
    if i + 1 == c {
        assert((i + 1) % c == 0) by (nonlinear_arith)
            requires
                i + 1 == c,
                c > 0,
        ;
    } else {
        assert((i + 1) % c == i + 1) by (nonlinear_arith)
            requires
                0 <= i + 1 < c,
        ;
    }
}

/// Without a current match, a step forward starts at the first match the
/// view has reached (the top match when none has), and a step back at the
/// last one (the bottom match when none has).
pub proof fn a_first_step_starts_at_the_view(count: usize, reached: Seq<bool>)
    requires
        count > 0,
        reached.len() == count,
    ensures
        ({
            let f = step_target(None, count as nat, false, reached);
            &&& 0 <= f < count
            &&& (exists|j: int| 0 <= j < count && #[trigger] reached[j]) ==> reached[f] && forall|
                j: int,
            | 0 <= j < f ==> !#[trigger] reached[j]
            &&& (forall|j: int| 0 <= j < count ==> !#[trigger] reached[j]) ==> f == 0
        }),
        ({
            let b = step_target(None, count as nat, true, reached);
            &&& 0 <= b < count
            &&& (exists|j: int| 0 <= j < count && #[trigger] reached[j]) ==> reached[b] && forall|
                j: int,
            | b < j < count ==> !#[trigger] reached[j]
            &&& (forall|j: int| 0 <= j < count ==> !#[trigger] reached[j]) ==> b == count - 1
        }),
{
    lemma_first_set(reached);
    lemma_last_set(reached);
}

} // verus!
