//! Fragment links: a link's document part and its heading fragment.
//!
//! `#section` moves inside the current document; `other.md#section` opens that
//! document and then moves. The fragment is whatever follows the first `#`.
use vstd::prelude::*;

verus! {

/// The position of the first `#` in `s`, or its length when it has none.
pub open spec fn first_hash(s: Seq<char>) -> int {
    if exists|i: int| 0 <= i < s.len() && s[i] == '#' {
        choose|i: int| 0 <= i < s.len() && s[i] == '#' && forall|j: int| 0 <= j < i ==> s[j] != '#'
    } else {
        s.len() as int
    }
}

/// What `percent_encoding::percent_decode_str(text).decode_utf8_lossy()`
/// gives for `text`.
pub uninterp spec fn percent_decoded(text: Seq<char>) -> Seq<char>;

/// Percent-decodes `text` (`%` and two hex digits become that byte) and reads
/// the bytes as UTF-8, replacing what is not, through
/// `percent_encoding::percent_decode_str(..).decode_utf8_lossy()`.
///
/// The result is named, not stated. Without a `%` the bytes pass through
/// unchanged, and the valid UTF-8 they came from reads back as the same text.
#[verifier::external_body]
fn percent_decode_lossy(text: &str) -> (r: String)
    ensures
        r@ == percent_decoded(text@),
        !text@.contains('%') ==> r@ == text@,
{
    percent_encoding::percent_decode_str(text).decode_utf8_lossy().into_owned()
}

/// Finds the first `#`.
fn find_hash(link: &str) -> (r: usize)
    ensures
        r == first_hash(link@),
        r <= link@.len(),
{
    let n = link.unicode_len();
    let mut i: usize = 0;
    while i < n
        invariant
            n == link@.len(),
            i <= n,
            forall|j: int| 0 <= j < i ==> link@[j] != '#',
        decreases n - i,
    {
        if link.get_char(i) == '#' {
            proof {
                let k = choose|k: int|
                    0 <= k < link@.len() && link@[k] == '#' && forall|j: int|
                        0 <= j < k ==> link@[j] != '#';
                assert(link@[i as int] == '#');
                if k < i {
                    assert(link@[k] != '#');
                } else if k > i {
                    assert(link@[i as int] != '#');
                }
            }
            return i;
        }
        i = i + 1;
    }
    i
}

/// A link's document part, without its fragment.
pub fn link_target(link: &str) -> (r: &str)
    ensures
        r@ == link@.subrange(0, first_hash(link@)),
{
    let at = find_hash(link);
    link.substring_char(0, at)
}

/// A link's percent-decoded fragment, when it has a non-empty one.
pub fn link_fragment(link: &str) -> (r: Option<String>)
    ensures
        r is None <==> first_hash(link@) + 1 >= link@.len(),
        r matches Some(f) ==> f@ == percent_decoded(
            link@.subrange(first_hash(link@) + 1, link@.len() as int),
        ),
{
    let at = find_hash(link);
    let n = link.unicode_len();
    if at >= n || n - at <= 1 {
        return None;
    }
    let fragment = link.substring_char(at + 1, n);
    Some(percent_decode_lossy(fragment))
}

proof fn lemma_first_hash(s: Seq<char>)
    ensures
        0 <= first_hash(s) <= s.len(),
        forall|j: int| 0 <= j < first_hash(s) ==> s[j] != '#',
        first_hash(s) < s.len() ==> s[first_hash(s)] == '#',
{
    if exists|i: int| 0 <= i < s.len() && s[i] == '#' {
        let i = choose|i: int| 0 <= i < s.len() && s[i] == '#';
        lemma_first_from(s, i, 0);
    }
}

proof fn lemma_first_from(s: Seq<char>, i: int, k: int)
    requires
        0 <= k <= i < s.len(),
        s[i] == '#',
        forall|j: int| 0 <= j < k ==> s[j] != '#',
    ensures
        exists|m: int| 0 <= m < s.len() && s[m] == '#' && forall|j: int| 0 <= j < m ==> s[j] != '#',
    decreases i - k,
{
    if s[k] == '#' {
        assert(0 <= k < s.len() && s[k] == '#' && forall|j: int| 0 <= j < k ==> s[j] != '#');
    } else {
        lemma_first_from(s, i, k + 1);
    }
}

/// A link's document part is the link up to its first `#`: it holds no `#`,
/// it is all of a link without one, and otherwise the link goes on with `#`
/// and then the fragment.
pub proof fn the_target_ends_at_the_first_hash(link: Seq<char>)
    ensures
        !link.subrange(0, first_hash(link)).contains('#'),
        link.subrange(0, first_hash(link)).is_prefix_of(link),
        !link.contains('#') ==> link.subrange(0, first_hash(link)) == link,
        link.contains('#') ==> link.subrange(0, first_hash(link)) + seq!['#'] + link.subrange(
            first_hash(link) + 1,
            link.len() as int,
        ) == link,
{
    lemma_first_hash(link);
    let h = first_hash(link);
    let t = link.subrange(0, h);
    assert(!t.contains('#')) by {
        if t.contains('#') {
            let j = choose|j: int| 0 <= j < t.len() && t[j] == '#';
            assert(link[j] != '#');
        }
    }
    assert(t =~= link.take(h));
    if !link.contains('#') {
        if h < link.len() {
            assert(link.contains('#'));
        }
        assert(t =~= link);
    } else {
        let j = choose|j: int| 0 <= j < link.len() && link[j] == '#';
        assert(h < link.len());
        assert(t + seq!['#'] + link.subrange(h + 1, link.len() as int) =~= link);
    }
}

} // verus!
