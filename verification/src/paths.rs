//! Paths as sequences of components: lexical `.`/`..` folding, joining a
//! resolved prefix with the tail that did not exist, and a path expressed from
//! another directory.
use vstd::prelude::*;
use crate::text::str_equal;

verus! {

/// One component of a path, as `std::path::Component` names them.
#[derive(Debug, PartialEq, Eq)]
pub enum PathPart {
    /// A Windows drive or share prefix.
    Prefix(String),
    /// The root separator.
    Root,
    /// `.`
    Current,
    /// `..`
    Parent,
    /// A file or directory name.
    Normal(String),
}

/// A component by its text.
pub enum Part {
    Prefix(Seq<char>),
    Root,
    Current,
    Parent,
    Normal(Seq<char>),
}

impl View for PathPart {
    type V = Part;

    open spec fn view(&self) -> Part {
        match self {
            PathPart::Prefix(s) => Part::Prefix(s@),
            PathPart::Root => Part::Root,
            PathPart::Current => Part::Current,
            PathPart::Parent => Part::Parent,
            PathPart::Normal(s) => Part::Normal(s@),
        }
    }
}

pub open spec fn parts_view(v: Seq<PathPart>) -> Seq<Part> {
    v.map_values(|p: PathPart| p@)
}

/// `PathBuf::pop`: drops a trailing name; a root or a prefix has no parent.
pub open spec fn pop(acc: Seq<Part>) -> Seq<Part> {
    if acc.len() > 0 && acc.last() is Normal {
        acc.drop_last()
    } else {
        acc
    }
}

/// One component folded in: `.` vanishes, `..` pops, anything else is pushed.
pub open spec fn fold_step(acc: Seq<Part>, p: Part) -> Seq<Part> {
    match p {
        Part::Current => acc,
        Part::Parent => pop(acc),
        _ => acc.push(p),
    }
}

/// Every component of `parts`, in order, folded onto `acc`.
pub open spec fn fold_onto(acc: Seq<Part>, parts: Seq<Part>) -> Seq<Part>
    decreases parts.len(),
{
    if parts.len() == 0 {
        acc
    } else {
        fold_step(fold_onto(acc, parts.drop_last()), parts.last())
    }
}

/// Lexical `.`/`..` folding of a whole path.
pub open spec fn normalized(parts: Seq<Part>) -> Seq<Part> {
    fold_onto(Seq::empty(), parts)
}

proof fn lemma_view_push(s: Seq<PathPart>, x: PathPart)
    ensures
        parts_view(s.push(x)) == parts_view(s).push(x@),
{
    assert(parts_view(s.push(x)) =~= parts_view(s).push(x@));
}

proof fn lemma_view_take(s: Seq<PathPart>, i: int)
    requires
        0 <= i < s.len(),
    ensures
        parts_view(s.take(i + 1)) == parts_view(s.take(i)).push(s[i]@),
{
    assert(s.take(i + 1) =~= s.take(i).push(s[i]));
    lemma_view_push(s.take(i), s[i]);
}

fn clone_part(p: &PathPart) -> (r: PathPart)
    ensures
        r@ == p@,
{
    match p {
        PathPart::Prefix(s) => PathPart::Prefix(s.clone()),
        PathPart::Root => PathPart::Root,
        PathPart::Current => PathPart::Current,
        PathPart::Parent => PathPart::Parent,
        PathPart::Normal(s) => PathPart::Normal(s.clone()),
    }
}

/// Whether two components are the same component.
pub fn same_part(a: &PathPart, b: &PathPart) -> (r: bool)
    ensures
        r == (a@ == b@),
{
    match (a, b) {
        (PathPart::Prefix(x), PathPart::Prefix(y)) => str_equal(x.as_str(), y.as_str()),
        (PathPart::Root, PathPart::Root) => true,
        (PathPart::Current, PathPart::Current) => true,
        (PathPart::Parent, PathPart::Parent) => true,
        (PathPart::Normal(x), PathPart::Normal(y)) => str_equal(x.as_str(), y.as_str()),
        _ => false,
    }
}

/// Folds one component onto `out`.
fn fold_into(out: &mut Vec<PathPart>, p: &PathPart)
    ensures
        parts_view(final(out)@) == fold_step(parts_view(old(out)@), p@),
{
    let ghost before = parts_view(out@);
    match p {
        PathPart::Current => {},
        PathPart::Parent => {
            let n = out.len();
            if n > 0 && matches!(out[n - 1], PathPart::Normal(_)) {
                out.pop();
                proof {
                    assert(parts_view(out@) =~= before.drop_last());
                }
            }
        },
        _ => {
            out.push(clone_part(p));
            proof {
                assert(parts_view(out@) =~= before.push(p@));
            }
        },
    }
}

/// Lexical `.`/`..` folding, for the part of a path that does not exist: a
/// `..` removes the name before it and is dropped at a root.
pub fn normalize(parts: &[PathPart]) -> (r: Vec<PathPart>)
    ensures
        parts_view(r@) == normalized(parts_view(parts@)),
{
    let mut out: Vec<PathPart> = Vec::new();
    let mut i: usize = 0;
    while i < parts.len()
        invariant
            i <= parts@.len(),
            parts_view(out@) == fold_onto(Seq::empty(), parts_view(parts@.take(i as int))),
        decreases parts.len() - i,
    {
        fold_into(&mut out, &parts[i]);
        proof {
            assert(parts_view(parts@.take(i + 1)).drop_last() =~= parts_view(
                parts@.take(i as int),
            ));
        }
        i = i + 1;
    }
    proof {
        assert(parts@.take(parts@.len() as int) =~= parts@);
    }
    out
}

/// The found path behind a path that exists only in part.
///
/// `found` is what the filesystem resolved for the nearest existing ancestor;
/// `tail` holds the components cut off on the way there, last component first.
/// They are applied back in order (a `..` pops) and the whole is folded
/// lexically.
pub fn join_resolved(found: &[PathPart], tail: &[PathPart]) -> (r: Vec<PathPart>)
    ensures
        parts_view(r@) == normalized(
            fold_onto(parts_view(found@), parts_view(tail@).reverse()),
        ),
{
    let mut out: Vec<PathPart> = Vec::new();
    let mut i: usize = 0;
    while i < found.len()
        invariant
            i <= found@.len(),
            parts_view(out@) == parts_view(found@.take(i as int)),
        decreases found.len() - i,
    {
        let ghost before = out@;
        out.push(clone_part(&found[i]));
        proof {
            lemma_view_push(before, out@.last());
            lemma_view_take(found@, i as int);
        }
        i = i + 1;
    }
    proof {
        assert(found@.take(found@.len() as int) =~= found@);
    }
    let mut j: usize = tail.len();
    while j > 0
        invariant
            j <= tail@.len(),
            parts_view(out@) == fold_onto(
                parts_view(found@),
                parts_view(tail@).reverse().take(tail@.len() - j),
            ),
        decreases j,
    {
        j = j - 1;
        fold_into(&mut out, &tail[j]);
        proof {
            let rev = parts_view(tail@).reverse();
            assert(rev.take(tail@.len() - j).drop_last() =~= rev.take(tail@.len() - j - 1));
            assert(rev.take(tail@.len() - j).last() == tail@[j as int]@);
        }
    }
    proof {
        let rev = parts_view(tail@).reverse();
        assert(rev.take(tail@.len() as int) =~= rev);
    }
    normalize(out.as_slice())
}

/// Whether `s` holds no `.` and no `..`.
pub open spec fn plain(s: Seq<Part>) -> bool {
    forall|i: int| 0 <= i < s.len() ==> !(#[trigger] s[i] is Current) && !(s[i] is Parent)
}

proof fn lemma_fold_plain(acc: Seq<Part>, parts: Seq<Part>)
    requires
        plain(acc),
    ensures
        plain(fold_onto(acc, parts)),
    decreases parts.len(),
{
    if parts.len() > 0 {
        lemma_fold_plain(acc, parts.drop_last());
        let before = fold_onto(acc, parts.drop_last());
        let after = fold_onto(acc, parts);
        assert forall|i: int| 0 <= i < after.len() implies !(#[trigger] after[i] is Current) && !(
        after[i] is Parent) by {
            if i < before.len() {
                assert(after[i] == before[i]);
            }
        }
    }
}

proof fn lemma_fold_plain_identity(s: Seq<Part>)
    requires
        plain(s),
    ensures
        fold_onto(Seq::empty(), s) == s,
    decreases s.len(),
{
    if s.len() > 0 {
        assert(plain(s.drop_last())) by {
            assert forall|i: int| 0 <= i < s.drop_last().len() implies !(
            #[trigger] s.drop_last()[i] is Current) && !(s.drop_last()[i] is Parent) by {
                assert(s.drop_last()[i] == s[i]);
            }
        }
        lemma_fold_plain_identity(s.drop_last());
        assert(!(s[s.len() - 1] is Current) && !(s[s.len() - 1] is Parent));
        assert(s.drop_last().push(s.last()) =~= s);
    }
}

/// Lexical folding leaves no `.` or `..` behind, so folding a folded path
/// again changes nothing.
pub proof fn normalizing_twice_changes_nothing(parts: Seq<Part>)
    ensures
        plain(normalized(parts)),
        normalized(normalized(parts)) == normalized(parts),
{
    lemma_fold_plain(Seq::empty(), parts);
    lemma_fold_plain_identity(normalized(parts));
}

/// How far a relative display may climb. `../archive/x` is short and clear;
/// `../../../../../srv/x` is shorter than the absolute path and useless.
pub const MAX_CLIMB: usize = 2;

/// How many leading components `a` and `b` share.
pub open spec fn common_prefix(a: Seq<Part>, b: Seq<Part>, k: int) -> bool {
    &&& 0 <= k <= a.len()
    &&& k <= b.len()
    &&& forall|i: int| 0 <= i < k ==> a[i] == b[i]
    &&& (k == a.len() || k == b.len() || a[k] != b[k])
}

/// `path` expressed from `base`: `..` for each directory of `base` below the
/// shared prefix, then the rest of `path`. `None` when the two share nothing,
/// when `path` has no component, or when more than `MAX_CLIMB` steps up would
/// be needed.
pub open spec fn relative(path: Seq<Part>, base: Seq<Part>) -> Option<Seq<Part>> {
    if path.len() == 0 {
        None
    } else {
        let from = path.drop_last();
        let k = choose|k: int| common_prefix(from, base, k);
        if k == 0 || base.len() - k > MAX_CLIMB {
            None
        } else {
            Some(
                Seq::new((base.len() - k) as nat, |i: int| Part::Parent) + from.subrange(
                    k,
                    from.len() as int,
                ) + seq![path.last()],
            )
        }
    }
}

proof fn common_prefix_unique(a: Seq<Part>, b: Seq<Part>, k: int, j: int)
    requires
        common_prefix(a, b, k),
        common_prefix(a, b, j),
    ensures
        k == j,
{
    if k < j {
        assert(a[k] == b[k]);
    } else if j < k {
        assert(a[j] == b[j]);
    }
}

/// `path` expressed from `base`, walking up and then down, when they share a
/// root; `path` is a file, so its last component is kept as its name.
pub fn relative_to(path: &[PathPart], base: &[PathPart]) -> (r: Option<Vec<PathPart>>)
    ensures
        match r {
            Some(v) => relative(parts_view(path@), parts_view(base@)) == Some(parts_view(v@)),
            None => relative(parts_view(path@), parts_view(base@)) is None,
        },
{
    let ghost pv = parts_view(path@);
    let ghost bv = parts_view(base@);
    if path.len() == 0 {
        return None;
    }
    let from_len = path.len() - 1;
    let mut common: usize = 0;
    while common < from_len && common < base.len() && same_part(&path[common], &base[common])
        invariant
            from_len == path@.len() - 1,
            common <= from_len,
            common <= base@.len(),
            pv == parts_view(path@),
            bv == parts_view(base@),
            forall|i: int| 0 <= i < common ==> pv.drop_last()[i] == bv[i],
        decreases from_len - common,
    {
        common = common + 1;
    }
    let ghost from = pv.drop_last();
    proof {
        assert(common_prefix(from, bv, common as int));
        let k = choose|k: int| common_prefix(from, bv, k);
        common_prefix_unique(from, bv, k, common as int);
    }
    // Different roots cannot be related, and a root-level file has nothing
    // shorter to say.
    if common == 0 {
        return None;
    }
    let climb = base.len() - common;
    if climb > MAX_CLIMB {
        return None;
    }
    let mut out: Vec<PathPart> = Vec::new();
    let mut i: usize = 0;
    while i < climb
        invariant
            i <= climb,
            parts_view(out@) == Seq::new(i as nat, |j: int| Part::Parent),
        decreases climb - i,
    {
        let ghost before = out@;
        out.push(PathPart::Parent);
        proof {
            lemma_view_push(before, PathPart::Parent);
            assert(parts_view(out@) =~= Seq::new((i + 1) as nat, |j: int| Part::Parent));
        }
        i = i + 1;
    }
    let mut k: usize = common;
    while k < from_len
        invariant
            common <= k <= from_len,
            from_len == path@.len() - 1,
            parts_view(out@) == Seq::new(climb as nat, |j: int| Part::Parent) + from.subrange(
                common as int,
                k as int,
            ),
            from == pv.drop_last(),
            pv == parts_view(path@),
        decreases from_len - k,
    {
        let ghost before = out@;
        out.push(clone_part(&path[k]));
        proof {
            lemma_view_push(before, out@.last());
            assert(from[k as int] == path@[k as int]@);
            assert(parts_view(out@) =~= Seq::new(climb as nat, |j: int| Part::Parent)
                + from.subrange(common as int, k + 1));
        }
        k = k + 1;
    }
    let ghost before = out@;
    out.push(clone_part(&path[from_len]));
    proof {
        lemma_view_push(before, out@.last());
        assert(parts_view(out@) =~= Seq::new(climb as nat, |j: int| Part::Parent)
            + from.subrange(common as int, from.len() as int) + seq![pv.last()]);
    }
    Some(out)
}

/// A path as an absolute path has it: a root, or a drive prefix and a root,
/// then names only.
pub open spec fn absolute(s: Seq<Part>) -> bool {
    &&& s.len() > 0
    &&& (s[0] is Root || (s[0] is Prefix && s.len() > 1 && s[1] is Root))
    &&& forall|i: int|
        1 <= i < s.len() ==> #[trigger] s[i] is Normal || (i == 1 && s[0] is Prefix && s[1] is Root)
}

proof fn lemma_fold_concat(acc: Seq<Part>, a: Seq<Part>, b: Seq<Part>)
    ensures
        fold_onto(acc, a + b) == fold_onto(fold_onto(acc, a), b),
    decreases b.len(),
{
    if b.len() == 0 {
        assert(a + b =~= a);
    } else {
        assert((a + b).drop_last() =~= a + b.drop_last());
        assert((a + b).last() == b.last());
        lemma_fold_concat(acc, a, b.drop_last());
    }
}

proof fn lemma_fold_names(acc: Seq<Part>, s: Seq<Part>)
    requires
        plain(s),
    ensures
        fold_onto(acc, s) == acc + s,
    decreases s.len(),
{
    if s.len() > 0 {
        assert(plain(s.drop_last())) by {
            assert forall|i: int| 0 <= i < s.drop_last().len() implies !(
            #[trigger] s.drop_last()[i] is Current) && !(s.drop_last()[i] is Parent) by {
                assert(s.drop_last()[i] == s[i]);
            }
        }
        lemma_fold_names(acc, s.drop_last());
        assert(!(s[s.len() - 1] is Current) && !(s[s.len() - 1] is Parent));
        assert((acc + s.drop_last()).push(s.last()) =~= acc + s);
    }
}

proof fn lemma_fold_climb(acc: Seq<Part>, m: nat)
    requires
        m <= acc.len(),
        forall|j: int| acc.len() - m <= j < acc.len() ==> #[trigger] acc[j] is Normal,
    ensures
        fold_onto(acc, Seq::new(m, |i: int| Part::Parent)) == acc.take(acc.len() - m),
    decreases m,
{
    let ups = Seq::new(m, |i: int| Part::Parent);
    if m == 0 {
        assert(acc.take(acc.len() as int) =~= acc);
    } else {
        assert(ups.drop_last() =~= Seq::new((m - 1) as nat, |i: int| Part::Parent));
        lemma_fold_climb(acc, (m - 1) as nat);
        let before = acc.take(acc.len() - (m - 1));
        assert(before.last() == acc[acc.len() - m]);
        assert(before.drop_last() =~= acc.take(acc.len() - m));
    }
}

proof fn lemma_common_prefix_from(a: Seq<Part>, b: Seq<Part>, k: int)
    requires
        0 <= k <= a.len(),
        k <= b.len(),
        forall|i: int| 0 <= i < k ==> a[i] == b[i],
    ensures
        exists|j: int| common_prefix(a, b, j),
    decreases a.len() - k,
{
    if k == a.len() || k == b.len() || a[k] != b[k] {
        assert(common_prefix(a, b, k));
    } else {
        lemma_common_prefix_from(a, b, k + 1);
    }
}

/// Walking the relative path back from `base` (joining it and folding `..`)
/// leads to `path` again, for absolute paths without `.` and `..` whose last
/// component is a name.
pub proof fn a_relative_path_leads_back(path: Seq<Part>, base: Seq<Part>)
    requires
        absolute(path),
        absolute(base),
        path.last() is Normal,
        relative(path, base) is Some,
    ensures
        normalized(base + relative(path, base).unwrap()) == path,
{
    let from = path.drop_last();
    lemma_common_prefix_from(from, base, 0);
    let k = choose|k: int| common_prefix(from, base, k);
    let c = (base.len() - k) as nat;
    let ups = Seq::new(c, |i: int| Part::Parent);
    let mid = from.subrange(k, from.len() as int);
    let last = seq![path.last()];
    let r = relative(path, base).unwrap();
    assert(r == ups + mid + last);
    assert(base + r =~= ((base + ups) + mid) + last);
    assert(plain(base)) by {
        assert forall|i: int| 0 <= i < base.len() implies !(#[trigger] base[i] is Current) && !(
        base[i] is Parent) by {
            if i >= 1 {
                assert(base[i] is Normal || (i == 1 && base[0] is Prefix && base[1] is Root));
            }
        }
    }
    lemma_fold_names(Seq::empty(), base);
    assert(Seq::<Part>::empty() + base =~= base);
    // The shared prefix covers the root, so only names are climbed out of.
    assert(k >= 1);
    if base[0] is Prefix {
        assert(path[0] == base[0]);
        assert(path.len() > 2) by {
            if path.len() == 2 {
                assert(path[1] is Root);
            }
        }
        assert(from[1] is Root);
        assert(base[1] is Root);
        assert(k >= 2);
    }
    assert forall|j: int| base.len() - c <= j < base.len() implies #[trigger] base[j] is Normal by {
        assert(j >= 1);
        if base[0] is Prefix {
            assert(j >= 2);
        }
    }
    lemma_fold_concat(Seq::empty(), base, ups);
    lemma_fold_climb(base, c);
    assert(base.take(k) =~= from.take(k));
    assert(plain(mid)) by {
        assert forall|i: int| 0 <= i < mid.len() implies !(#[trigger] mid[i] is Current) && !(
        mid[i] is Parent) by {
            assert(mid[i] == path[k + i]);
            assert(path[k + i] is Normal || (k + i == 1 && path[0] is Prefix && path[1] is Root));
        }
    }
    lemma_fold_concat(Seq::empty(), base + ups, mid);
    lemma_fold_names(base.take(k), mid);
    assert(from.take(k) + mid =~= from);
    lemma_fold_concat(Seq::empty(), (base + ups) + mid, last);
    assert(plain(last)) by {
        assert(last[0] == path.last());
    }
    lemma_fold_names(from, last);
    assert(from + last =~= path);
}

} // verus!
