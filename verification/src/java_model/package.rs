//! The package tree: dot-segmented path insertion, lookup, and the
//! generation of fully qualified completion lists.

use vstd::prelude::*;
use vstd::string::StrSliceExecFns;
use vstd::string::StringExecFns;
use super::ClassMember;
use super::Declaration;
use super::Field;
use super::Modifier;
use super::NamespaceError;

verus! {

/// A package: a name segment, the declarations it holds, and its
/// subpackages.
#[derive(Debug, PartialEq, Eq)]
pub struct Package {
    /// The name of just this package (one segment, no dots).
    pub name: String,
    pub decl_list: Vec<Declaration>,
    pub package_list: Vec<Package>,
}

/// A usable name segment: non-empty, no separator, no NUL (the search
/// buffer's sentinel).
pub open spec fn seg_ok(s: Seq<char>) -> bool {
    &&& s.len() > 0
    &&& !s.contains('.')
    &&& !s.contains('\x00')
}

/// The position of the first dot, or the length when there is none.
pub open spec fn dot_pos(s: Seq<char>) -> nat
    decreases s.len(),
{
    if s.len() == 0 {
        0
    } else if s[0] == '.' {
        0
    } else {
        1 + dot_pos(s.skip(1))
    }
}

proof fn lemma_dot_pos(s: Seq<char>)
    ensures
        dot_pos(s) <= s.len(),
        dot_pos(s) < s.len() ==> s[dot_pos(s) as int] == '.',
        forall|k: int| 0 <= k < dot_pos(s) ==> s[k] != '.',
    decreases s.len(),
{
    if s.len() == 0 {
    } else if s[0] == '.' {
    } else {
        lemma_dot_pos(s.skip(1));
        assert forall|k: int| 0 <= k < dot_pos(s) implies s[k] != '.' by {
            if k > 0 {
                assert(s.skip(1)[k - 1] == s[k]);
            }
        }
        if dot_pos(s) < s.len() {
            assert(s.skip(1)[dot_pos(s) as int - 1] == s[dot_pos(s) as int]);
        }
    }
}

/// A dotted path, split at its separators. An empty path gives one empty
/// segment.
pub open spec fn split_path(s: Seq<char>) -> Seq<Seq<char>>
    decreases s.len(),
{
    let d = dot_pos(s) as int;
    if d >= s.len() {
        seq![s]
    } else {
        seq![s.take(d)] + split_path(s.skip(d + 1))
    }
}

/// Splitting never gives an empty list.
proof fn lemma_split_len(s: Seq<char>)
    ensures
        split_path(s).len() >= 1,
{
    lemma_dot_pos(s);
}

/// Segments joined back with separators.
pub open spec fn join_path(segs: Seq<Seq<char>>) -> Seq<char>
    decreases segs.len(),
{
    if segs.len() == 0 {
        Seq::<char>::empty()
    } else if segs.len() == 1 {
        segs[0]
    } else {
        join_path(segs.drop_last()) + seq!['.'] + segs.last()
    }
}

/// A path whose segments are all usable.
pub open spec fn valid_path(s: Seq<char>) -> bool {
    forall|i: int| 0 <= i < split_path(s).len() ==> seg_ok(#[trigger] split_path(s)[i])
}

/// A separator preceded by none fixes the first-dot position.
proof fn lemma_dot_pos_at(s: Seq<char>, j: int)
    requires
        0 <= j < s.len(),
        forall|k: int| 0 <= k < j ==> s[k] != '.',
        s[j] == '.',
    ensures
        dot_pos(s) == j,
    decreases j,
{
    if j == 0 {
    } else {
        assert forall|k: int| 0 <= k < j - 1 implies s.skip(1)[k] != '.' by {
            assert(s.skip(1)[k] == s[k + 1]);
        }
        assert(s.skip(1)[j - 1] == s[j]);
        lemma_dot_pos_at(s.skip(1), j - 1);
    }
}

/// No separator anywhere puts the first-dot position at the end.
proof fn lemma_dot_pos_none(s: Seq<char>)
    requires
        forall|k: int| 0 <= k < s.len() ==> s[k] != '.',
    ensures
        dot_pos(s) == s.len(),
    decreases s.len(),
{
    if s.len() > 0 {
        assert forall|k: int| 0 <= k < s.skip(1).len() implies s.skip(1)[k] != '.' by {
            assert(s.skip(1)[k] == s[k + 1]);
        }
        lemma_dot_pos_none(s.skip(1));
    }
}

/// How one more character extends a split: a separator opens a new empty
/// segment, any other character extends the last one.
proof fn lemma_split_push(s: Seq<char>, c: char)
    ensures
        c == '.' ==> split_path(s.push(c)) == split_path(s).push(Seq::<char>::empty()),
        c != '.' ==> split_path(s.push(c)) == split_path(s).update(
            split_path(s).len() - 1,
            split_path(s).last().push(c),
        ),
    decreases s.len(),
{
    lemma_split_len(s);
    lemma_dot_pos(s);
    lemma_dot_pos(s.push(c));
    let d = dot_pos(s) as int;
    let t = s.push(c);
    if d >= s.len() {
        // `s` has no separator
        if c == '.' {
            assert(dot_pos(t) == s.len()) by {
                assert forall|k: int| 0 <= k < s.len() implies t[k] != '.' by {
                    assert(t[k] == s[k]);
                }
                lemma_dot_pos_at(t, s.len() as int);
            }
            assert(t.take(s.len() as int) =~= s);
            assert(t.skip(s.len() as int + 1) =~= Seq::<char>::empty());
            assert(split_path(Seq::<char>::empty()) == seq![Seq::<char>::empty()]);
            assert(split_path(t) =~~= split_path(s).push(Seq::<char>::empty()));
        } else {
            assert(dot_pos(t) == t.len()) by {
                assert forall|k: int| 0 <= k < t.len() implies t[k] != '.' by {
                    if k < s.len() {
                        assert(t[k] == s[k]);
                    }
                }
                lemma_dot_pos_none(t);
            }
            assert(split_path(t) =~= split_path(s).update(
                split_path(s).len() - 1,
                split_path(s).last().push(c),
            ));
        }
    } else {
        // the first segment of `s` is closed; recurse past it
        assert(dot_pos(t) == d) by {
            assert(t[d] == s[d]);
            assert forall|k: int| 0 <= k < d implies t[k] != '.' by {
                assert(t[k] == s[k]);
            }
            lemma_dot_pos_at(t, d);
        }
        assert(t.take(d) =~= s.take(d));
        assert(t.skip(d + 1) =~= s.skip(d + 1).push(c));
        lemma_split_push(s.skip(d + 1), c);
        lemma_split_len(s.skip(d + 1));
        if c == '.' {
            assert(split_path(t) =~= split_path(s).push(Seq::<char>::empty()));
        } else {
            assert(split_path(t) =~= split_path(s).update(
                split_path(s).len() - 1,
                split_path(s).last().push(c),
            ));
        }
    }
}

/// Split a dotted path into its segments.
pub fn split_segments(s: &str) -> (r: Vec<String>)
    ensures
        r.deep_view() == split_path(s@),
        r@.len() >= 1,
{
    let n = s.unicode_len();
    let mut r: Vec<String> = Vec::new();
    let mut cur = String::new();
    proof {
        assert(s@.take(0) =~= Seq::<char>::empty());
        assert(split_path(Seq::<char>::empty()) == seq![Seq::<char>::empty()]);
        assert(r.deep_view() =~= Seq::<Seq<char>>::empty());
        assert(split_path(s@.take(0)) =~~= r.deep_view().push(cur@));
    }
    let mut i: usize = 0;
    while i < n
        invariant
            n == s@.len(),
            0 <= i <= n,
            split_path(s@.take(i as int)) == r.deep_view().push(cur@),
        decreases n - i,
    {
        let c = s.get_char(i);
        proof {
            assert(s@.take(i as int + 1) =~= s@.take(i as int).push(s@[i as int]));
            lemma_split_push(s@.take(i as int), s@[i as int]);
            lemma_split_len(s@.take(i as int));
        }
        if c == '.' {
            let ghost before = r.deep_view();
            r.push(cur);
            cur = String::new();
            proof {
                assert(r.deep_view() =~= before.push(
                    split_path(s@.take(i as int)).last(),
                ));
                assert(split_path(s@.take(i as int + 1)) =~~= r.deep_view().push(cur@));
            }
        } else {
            cur.append(s.substring_char(i, i + 1));
            proof {
                assert(s@.subrange(i as int, i as int + 1) =~= seq![s@[i as int]]);
                assert(split_path(s@.take(i as int + 1)) =~~= r.deep_view().push(cur@));
            }
        }
        i = i + 1;
    }
    proof {
        assert(s@.take(n as int) =~= s@);
        lemma_split_len(s@);
    }
    let ghost before = r.deep_view();
    r.push(cur);
    proof {
        assert(r.deep_view() =~= before.push(cur@));
        assert(r.deep_view() =~= split_path(s@));
    }
    r
}


/// The first index in a package list whose package carries the given name,
/// or the length when none does.
pub open spec fn idx_of_name(ps: Seq<Package>, seg: Seq<char>) -> int
    decreases ps.len(),
{
    if ps.len() == 0 {
        0
    } else if ps[0].name@ == seg {
        0
    } else {
        1 + idx_of_name(ps.skip(1), seg)
    }
}

proof fn lemma_idx_props(ps: Seq<Package>, seg: Seq<char>)
    ensures
        0 <= idx_of_name(ps, seg) <= ps.len(),
        idx_of_name(ps, seg) < ps.len() ==> ps[idx_of_name(ps, seg)].name@ == seg,
        forall|k: int| 0 <= k < idx_of_name(ps, seg) ==> ps[k].name@ != seg,
        idx_of_name(ps, seg) == ps.len() ==> forall|k: int|
            0 <= k < ps.len() ==> ps[k].name@ != seg,
    decreases ps.len(),
{
    if ps.len() == 0 {
    } else if ps[0].name@ == seg {
    } else {
        lemma_idx_props(ps.skip(1), seg);
        assert forall|k: int| 0 <= k < idx_of_name(ps, seg) implies ps[k].name@ != seg by {
            if k > 0 {
                assert(ps.skip(1)[k - 1] == ps[k]);
            }
        }
        if idx_of_name(ps, seg) == ps.len() {
            assert forall|k: int| 0 <= k < ps.len() implies ps[k].name@ != seg by {
                if k > 0 {
                    assert(ps.skip(1)[k - 1] == ps[k]);
                }
            }
        }
    }
}

/// A name match preceded by none fixes the index.
proof fn lemma_idx_at(ps: Seq<Package>, seg: Seq<char>, i: int)
    requires
        0 <= i < ps.len(),
        forall|k: int| 0 <= k < i ==> ps[k].name@ != seg,
        ps[i].name@ == seg,
    ensures
        idx_of_name(ps, seg) == i,
    decreases i,
{
    if i == 0 {
    } else {
        assert forall|k: int| 0 <= k < i - 1 implies ps.skip(1)[k].name@ != seg by {
            assert(ps.skip(1)[k] == ps[k + 1]);
        }
        assert(ps.skip(1)[i - 1] == ps[i]);
        lemma_idx_at(ps.skip(1), seg, i - 1);
    }
}

/// The package reached by following child segments from `p`, staying put at
/// the first segment that matches no child.
pub open spec fn walk_to(p: Package, segs: Seq<Seq<char>>) -> Package
    decreases segs.len(),
{
    if segs.len() == 0 {
        p
    } else {
        let i = idx_of_name(p.package_list@, segs[0]);
        if i < p.package_list@.len() {
            walk_to(p.package_list@[i], segs.skip(1))
        } else {
            p
        }
    }
}

/// How many of the child segments can be followed from `p`.
pub open spec fn match_depth(p: Package, segs: Seq<Seq<char>>) -> int
    decreases segs.len(),
{
    if segs.len() == 0 {
        0
    } else {
        let i = idx_of_name(p.package_list@, segs[0]);
        if i < p.package_list@.len() {
            1 + match_depth(p.package_list@[i], segs.skip(1))
        } else {
            0
        }
    }
}

proof fn lemma_match_depth_bounds(p: Package, segs: Seq<Seq<char>>)
    ensures
        0 <= match_depth(p, segs) <= segs.len(),
    decreases segs.len(),
{
    if segs.len() > 0 {
        let i = idx_of_name(p.package_list@, segs[0]);
        lemma_idx_props(p.package_list@, segs[0]);
        if i < p.package_list@.len() {
            lemma_match_depth_bounds(p.package_list@[i], segs.skip(1));
        }
    }
}

impl Package {
    /// Well-formedness of a package tree: every name is a usable segment,
    /// no two subpackages of one parent share a name, no two declarations of
    /// one package share a name, and declaration names hold no sentinel.
    pub open spec fn wf(self) -> bool
        decreases self,
    {
        &&& seg_ok(self.name@)
        &&& (forall|i: int, j: int|
            0 <= i < j < self.package_list@.len() ==> (#[trigger] self.package_list@[i]).name@ != (
            #[trigger] self.package_list@[j]).name@)
        &&& (forall|i: int, j: int|
            0 <= i < j < self.decl_list@.len() ==> (#[trigger] self.decl_list@[i]).spec_name() != (
            #[trigger] self.decl_list@[j]).spec_name())
        &&& (forall|i: int|
            0 <= i < self.decl_list@.len() ==> !(#[trigger] self.decl_list@[i]).spec_name().contains(
                '\x00',
            ))
        &&& (forall|i: int|
            0 <= i < self.package_list@.len() ==> (#[trigger] self.package_list@[i]).wf())
    }

    /// Follow child segments from position `j` of `segs` as deep as they
    /// match, returning the deepest package reached and the position of the
    /// first segment that matched no child.
    fn descend<'a>(&'a self, segs: &[String], j: usize) -> (r: (&'a Package, usize))
        requires
            0 <= j <= segs@.len(),
        ensures
            ({
                let ss = segs.deep_view().skip(j as int);
                let d = match_depth(*self, ss);
                &&& r.1 == j + d
                &&& *r.0 == walk_to(*self, ss.take(d))
            }),
        decreases segs@.len() - j,
    {
        proof {
            lemma_match_depth_bounds(*self, segs.deep_view().skip(j as int));
        }
        if j == segs.len() {
            proof {
                let ss = segs.deep_view().skip(j as int);
                assert(ss =~= Seq::<Seq<char>>::empty());
            }
            return (self, j);
        }
        let ghost ss = segs.deep_view().skip(j as int);
        proof {
            assert(ss[0] == segs.deep_view()[j as int]);
            assert(segs.deep_view()[j as int] == segs@[j as int]@);
        }
        // first child whose name matches the segment
        let n = self.package_list.len();
        let mut i: usize = 0;
        while i < n
            invariant
                n == self.package_list@.len(),
                0 <= i <= n,
                0 <= j < segs@.len(),
                ss == segs.deep_view().skip(j as int),
                ss[0] == segs@[j as int]@,
                forall|k: int| 0 <= k < i ==> (#[trigger] self.package_list@[k]).name@
                    != segs@[j as int]@,
            decreases n - i,
        {
            if self.package_list[i].name == segs[j] {
                proof {
                    lemma_idx_at(self.package_list@, segs@[j as int]@, i as int);
                    assert(ss.skip(1) =~= segs.deep_view().skip(j as int + 1));
                }
                let (deepest, pos) = self.package_list[i].descend(segs, j + 1);
                proof {
                    lemma_match_depth_bounds(
                        self.package_list@[i as int],
                        segs.deep_view().skip(j as int + 1),
                    );
                    let d_inner = match_depth(
                        self.package_list@[i as int],
                        segs.deep_view().skip(j as int + 1),
                    );
                    assert(match_depth(*self, ss) == 1 + d_inner);
                    assert(ss.take(1 + d_inner)[0] == ss[0]);
                    assert(ss.take(1 + d_inner).skip(1) =~= ss.skip(1).take(d_inner));
                    assert(walk_to(*self, ss.take(1 + d_inner)) == walk_to(
                        self.package_list@[i as int],
                        ss.skip(1).take(d_inner),
                    ));
                }
                return (deepest, pos);
            }
            i = i + 1;
        }
        proof {
            lemma_idx_props(self.package_list@, segs@[j as int]@);
            assert(idx_of_name(self.package_list@, ss[0]) == self.package_list@.len());
            assert(match_depth(*self, ss) == 0);
            assert(ss.take(0) =~= Seq::<Seq<char>>::empty());
        }
        (self, j)
    }

    /// Join the segments from position `j` on back into a dotted path.
    fn join_tail(segs: &[String], j: usize) -> (r: String)
        requires
            0 <= j < segs@.len(),
        ensures
            r@ == join_path(segs.deep_view().skip(j as int)),
    {
        let ghost ss = segs.deep_view().skip(j as int);
        let mut r = segs[j].clone();
        proof {
            assert(ss.take(1) =~= seq![ss[0]]);
            assert(join_path(ss.take(1)) == ss[0]);
            assert(ss[0] == segs@[j as int]@);
        }
        let mut k: usize = j + 1;
        while k < segs.len()
            invariant
                0 <= j < k <= segs@.len(),
                ss == segs.deep_view().skip(j as int),
                r@ == join_path(ss.take(k - j)),
            decreases segs@.len() - k,
        {
            r.append(".");
            r.append(segs[k].as_str());
            proof {
                reveal_strlit(".");
                assert(ss.take(k - j + 1).drop_last() =~= ss.take(k - j));
                assert(ss.take(k - j + 1).last() == ss[k - j] && ss[k - j] == segs@[k as int]@);
                assert(r@ == join_path(ss.take(k - j)) + seq!['.'] + segs@[k as int]@);
            }
            k = k + 1;
        }
        proof {
            assert(ss.take(segs@.len() - j) =~= ss);
        }
        r
    }

    /// Find a package given a fully qualified name. Returns the deepest
    /// package reached while matching segments, and the unmatched remainder
    /// of the path, if any. Returns no package when the first segment does
    /// not match this package's name.
    pub fn find_pkg<'a>(&'a self, name: &str) -> (r: (Option<&'a Package>, Option<String>))
        ensures
            ({
                let segs = split_path(name@);
                if name@.len() == 0 || segs[0] != self.name@ {
                    &&& r.0 is None
                    &&& (r.1 matches Some(rem) && rem@ == name@)
                } else {
                    let d = match_depth(*self, segs.skip(1));
                    &&& (r.0 matches Some(p) && *p == walk_to(*self, segs.skip(1).take(d)))
                    &&& (d == segs.len() - 1 ==> r.1 is None)
                    &&& (d < segs.len() - 1 ==> (r.1 matches Some(rem) && rem@ == join_path(
                        segs.skip(1 + d),
                    )))
                }
            }),
    {
        if name.unicode_len() == 0 {
            return (None, Some(name.to_owned()));
        }
        let segs = split_segments(name);
        proof {
            lemma_split_len(name@);
            assert(segs.deep_view()[0] == segs@[0]@);
        }
        if !(self.name == segs[0]) {
            return (None, Some(name.to_owned()));
        }
        let ghost ss = segs.deep_view().skip(1);
        let (deepest, pos) = self.descend(segs.as_slice(), 1);
        proof {
            lemma_match_depth_bounds(*self, ss);
        }
        if pos == segs.len() {
            (Some(deepest), None)
        } else {
            let rem = Package::join_tail(segs.as_slice(), pos);
            proof {
                let d = match_depth(*self, ss);
                assert(segs.deep_view().skip(pos as int) =~= split_path(name@).skip(1 + d));
            }
            (Some(deepest), Some(rem))
        }
    }
}


/// A chain of fresh packages, one per segment, each the only child of the
/// one before, all without declarations.
pub open spec fn fresh_chain(p: Package, segs: Seq<Seq<char>>) -> bool
    decreases segs.len(),
{
    &&& segs.len() > 0
    &&& p.name@ == segs[0]
    &&& p.decl_list@.len() == 0
    &&& if segs.len() == 1 {
        p.package_list@.len() == 0
    } else {
        &&& p.package_list@.len() == 1
        &&& fresh_chain(p.package_list@[0], segs.skip(1))
    }
}

/// How a tree changes when a child path is added under it: the segments are
/// followed through existing children as far as they match, and a fresh
/// chain holding the unmatched tail is appended there. Nothing else moves.
pub open spec fn spec_added(p1: Package, p2: Package, segs: Seq<Seq<char>>) -> bool
    decreases segs.len(),
{
    if segs.len() == 0 {
        p2 == p1
    } else {
        let i = idx_of_name(p1.package_list@, segs[0]);
        &&& p2.name == p1.name
        &&& p2.decl_list == p1.decl_list
        &&& if i < p1.package_list@.len() {
            &&& p2.package_list@.len() == p1.package_list@.len()
            &&& (forall|k: int|
                0 <= k < p1.package_list@.len() && k != i ==> p2.package_list@[k]
                    == p1.package_list@[k])
            &&& spec_added(p1.package_list@[i], p2.package_list@[i], segs.skip(1))
        } else {
            &&& p2.package_list@ == p1.package_list@.push(p2.package_list@.last())
            &&& fresh_chain(p2.package_list@.last(), segs)
        }
    }
}

/// Adding a path keeps the package's own name.
pub proof fn lemma_added_name(p1: Package, p2: Package, segs: Seq<Seq<char>>)
    requires
        spec_added(p1, p2, segs),
    ensures
        p2.name == p1.name,
        p2.decl_list == p1.decl_list,
{
    if segs.len() == 0 {
    }
}

/// The package at an index path, if the path stays in bounds.
pub open spec fn pkg_at(p: Package, path: Seq<usize>) -> Option<Package>
    decreases path.len(),
{
    if path.len() == 0 {
        Some(p)
    } else if path[0] < p.package_list@.len() {
        pkg_at(p.package_list@[path[0] as int], path.skip(1))
    } else {
        None
    }
}

/// A fresh chain is navigated by first-child steps down to its deepest
/// package, named by the last segment.
proof fn lemma_fresh_chain_at(p: Package, segs: Seq<Seq<char>>)
    requires
        fresh_chain(p, segs),
    ensures
        pkg_at(p, Seq::<usize>::new((segs.len() - 1) as nat, |k: int| 0usize)) matches Some(q)
            && q.name@ == segs.last(),
    decreases segs.len(),
{
    let path = Seq::<usize>::new((segs.len() - 1) as nat, |k: int| 0usize);
    if segs.len() == 1 {
        assert(path.len() == 0);
    } else {
        lemma_fresh_chain_at(p.package_list@[0], segs.skip(1));
        assert(path[0] == 0usize);
        assert(path.skip(1) =~= Seq::<usize>::new((segs.len() - 2) as nat, |k: int| 0usize));
    }
}

impl Package {
    /// Build the fresh chain for the segments from position `j` on.
    fn build_chain(segs: &[String], j: usize) -> (r: Package)
        requires
            0 <= j < segs@.len(),
            forall|k: int| 0 <= k < segs@.len() ==> seg_ok(#[trigger] segs.deep_view()[k]),
        ensures
            fresh_chain(r, segs.deep_view().skip(j as int)),
            r.wf(),
        decreases segs@.len() - j,
    {
        let name = segs[j].clone();
        let mut package_list: Vec<Package> = Vec::new();
        if j + 1 < segs.len() {
            package_list.push(Package::build_chain(segs, j + 1));
        }
        let r = Package { name, decl_list: Vec::new(), package_list };
        proof {
            let ss = segs.deep_view().skip(j as int);
            assert(ss[0] == segs.deep_view()[j as int]);
            if j + 1 < segs@.len() {
                assert(ss.skip(1) =~= segs.deep_view().skip(j as int + 1));
            }
        }
        r
    }

    /// Follow the segments from position `j`, creating missing packages, and
    /// return the child-index path to the deepest package on the path.
    fn add_path(&mut self, segs: &[String], j: usize) -> (r: Vec<usize>)
        requires
            old(self).wf(),
            0 <= j <= segs@.len(),
            forall|k: int| 0 <= k < segs@.len() ==> seg_ok(#[trigger] segs.deep_view()[k]),
        ensures
            final(self).wf(),
            spec_added(*old(self), *final(self), segs.deep_view().skip(j as int)),
            r@.len() == segs@.len() - j,
            pkg_at(*final(self), r@) matches Some(q) && q.name@ == (if j < segs@.len() {
                segs.deep_view().last()
            } else {
                old(self).name@
            }),
        decreases segs@.len() - j,
    {
        if j == segs.len() {
            proof {
                assert(segs.deep_view().skip(j as int) =~= Seq::<Seq<char>>::empty());
            }
            return Vec::new();
        }
        let ghost ss = segs.deep_view().skip(j as int);
        proof {
            assert(ss[0] == segs.deep_view()[j as int]);
            assert(segs.deep_view()[j as int] == segs@[j as int]@);
            assert(ss.last() == segs.deep_view().last());
        }
        let n = self.package_list.len();
        let mut i: usize = 0;
        while i < n
            invariant
                *self == *old(self),
                self.wf(),
                n == self.package_list@.len(),
                0 <= i <= n,
                0 <= j < segs@.len(),
                forall|k: int| 0 <= k < segs@.len() ==> seg_ok(#[trigger] segs.deep_view()[k]),
                ss == segs.deep_view().skip(j as int),
                ss[0] == segs@[j as int]@,
                ss[0] == segs.deep_view()[j as int],
                ss.last() == segs.deep_view().last(),
                ss.len() == segs@.len() - j,
                forall|k: int| 0 <= k < i ==> (#[trigger] self.package_list@[k]).name@
                    != segs@[j as int]@,
            decreases n - i,
        {
            if self.package_list[i].name == segs[j] {
                proof {
                    lemma_idx_at(self.package_list@, segs@[j as int]@, i as int);
                }
                let ghost t1 = *self;
                let child = &mut self.package_list[i];
                let tail_path = child.add_path(segs, j + 1);
                proof {
                    assert(self.package_list@ == t1.package_list@.update(
                        i as int,
                        self.package_list@[i as int],
                    ));
                    assert(ss.skip(1) =~= segs.deep_view().skip(j as int + 1));
                    lemma_added_name(
                        t1.package_list@[i as int],
                        self.package_list@[i as int],
                        ss.skip(1),
                    );
                    assert(spec_added(t1, *self, ss));
                    assert(self.wf()) by {
                        assert forall|k: int|
                            0 <= k < self.package_list@.len() implies (
                        #[trigger] self.package_list@[k]).wf() by {
                            if k != i as int {
                                assert(self.package_list@[k] == t1.package_list@[k]);
                            }
                        }
                    }
                }
                let mut r: Vec<usize> = Vec::new();
                r.push(i);
                let mut tail_path = tail_path;
                let ghost tv = tail_path@;
                r.append(&mut tail_path);
                proof {
                    assert(r@ == seq![i as usize] + tv);
                    assert(r@[0] == i);
                    assert(r@.skip(1) =~= tv);
                    assert(pkg_at(*self, r@) == pkg_at(
                        self.package_list@[i as int],
                        tv,
                    ));
                    if j + 1 == segs@.len() {
                        assert(t1.package_list@[i as int].name@ == segs@[j as int]@);
                        assert(segs.deep_view().last() == segs.deep_view()[j as int]);
                    }
                }
                return r;
            }
            i = i + 1;
        }
        proof {
            lemma_idx_props(self.package_list@, segs@[j as int]@);
        }
        let fresh = Package::build_chain(segs, j);
        let ghost t1 = *self;
        self.package_list.push(fresh);
        let mut r: Vec<usize> = Vec::new();
        r.push(n);
        let mut k: usize = j + 1;
        while k < segs.len()
            invariant
                j + 1 <= k <= segs@.len(),
                r@.len() == 1 + k - (j + 1),
                r@[0] == n,
                forall|m: int| 1 <= m < r@.len() ==> r@[m] == 0usize,
            decreases segs@.len() - k,
        {
            r.push(0);
            k = k + 1;
        }
        proof {
            assert(spec_added(t1, *self, ss)) by {
                assert(self.package_list@ == t1.package_list@.push(fresh));
                assert(self.package_list@.last() == fresh);
            }
            assert(self.wf()) by {
                assert forall|k2: int|
                    0 <= k2 < self.package_list@.len() implies (
                #[trigger] self.package_list@[k2]).wf() by {
                    if k2 < t1.package_list@.len() {
                        assert(self.package_list@[k2] == t1.package_list@[k2]);
                    }
                }
            }
            lemma_fresh_chain_at(fresh, ss);
            assert(r@.skip(1) =~= Seq::<usize>::new((ss.len() - 1) as nat, |m: int| 0usize));
            assert(pkg_at(*self, r@) == pkg_at(fresh, r@.skip(1)));
        }
        r
    }

    /// Given the (full) name of a package, trace down the tree until there
    /// is a divergence, then add packages from there. Returns the
    /// child-index path to the deepest package on the path, or nothing when
    /// the first segment does not match this package's name.
    pub fn add_subpackage(&mut self, name: &str) -> (r: Option<Vec<usize>>)
        requires
            old(self).wf(),
            valid_path(name@),
        ensures
            final(self).wf(),
            match r {
                None => *final(self) == *old(self) && split_path(name@)[0] != old(self).name@,
                Some(path) => {
                    &&& split_path(name@)[0] == old(self).name@
                    &&& spec_added(*old(self), *final(self), split_path(name@).skip(1))
                    &&& path@.len() == split_path(name@).len() - 1
                    &&& pkg_at(*final(self), path@) matches Some(q) && q.name@ == split_path(
                        name@,
                    ).last()
                },
            },
    {
        let segs = split_segments(name);
        proof {
            lemma_split_len(name@);
            assert(segs.deep_view()[0] == segs@[0]@);
        }
        if !(self.name == segs[0]) {
            return None;
        }
        let path = self.add_path(segs.as_slice(), 1);
        proof {
            assert(segs.deep_view().skip(1) =~= split_path(name@).skip(1));
            if split_path(name@).len() == 1 {
                assert(spec_added(*self, *self, split_path(name@).skip(1)));
            }
            assert(split_path(name@).last() == segs.deep_view().last());
            if 1 < segs@.len() {
            } else {
                assert(split_path(name@).last() == split_path(name@)[0]);
            }
        }
        Some(path)
    }

    /// Creates a package tree from a dotted name. Returns the root package
    /// and, when the path is more than one segment deep, the child-index
    /// path to the deepest package created.
    pub fn new(name: &str) -> (r: (Package, Option<Vec<usize>>))
        requires
            valid_path(name@),
        ensures
            r.0.wf(),
            fresh_chain(r.0, split_path(name@)),
            match r.1 {
                None => split_path(name@).len() == 1,
                Some(path) => {
                    &&& split_path(name@).len() > 1
                    &&& pkg_at(r.0, path@) matches Some(q) && q.name@ == split_path(name@).last()
                },
            },
    {
        let segs = split_segments(name);
        proof {
            assert(segs.deep_view().skip(0) =~= segs.deep_view());
        }
        let p = Package::build_chain(segs.as_slice(), 0);
        if segs.len() == 1 {
            (p, None)
        } else {
            let mut path: Vec<usize> = Vec::new();
            let mut k: usize = 1;
            while k < segs.len()
                invariant
                    1 <= k <= segs@.len(),
                    path@.len() == k - 1,
                    forall|m: int| 0 <= m < path@.len() ==> path@[m] == 0usize,
                decreases segs@.len() - k,
            {
                path.push(0);
                k = k + 1;
            }
            proof {
                lemma_fresh_chain_at(p, segs.deep_view());
                assert(path@ =~= Seq::<usize>::new(
                    (segs.deep_view().len() - 1) as nat,
                    |m: int| 0usize,
                ));
            }
            (p, Some(path))
        }
    }

    /// The package at a child-index path, if every index is in bounds.
    pub fn pkg_at_path<'a>(&'a self, path: &[usize]) -> (r: Option<&'a Package>)
        ensures
            match r {
                Some(p) => pkg_at(*self, path@) == Some(*p),
                None => pkg_at(*self, path@) is None,
            },
    {
        let mut cur: &Package = self;
        proof {
            assert(path@.skip(0) =~= path@);
        }
        let mut j: usize = 0;
        while j < path.len()
            invariant
                0 <= j <= path@.len(),
                pkg_at(*self, path@) == pkg_at(*cur, path@.skip(j as int)),
            decreases path@.len() - j,
        {
            let ix = path[j];
            proof {
                assert(path@.skip(j as int)[0] == path@[j as int]);
                assert(path@.skip(j as int).skip(1) =~= path@.skip(j as int + 1));
            }
            if ix >= cur.package_list.len() {
                return None;
            }
            cur = &cur.package_list[ix];
            j = j + 1;
        }
        proof {
            assert(path@.skip(path@.len() as int) =~= Seq::<usize>::empty());
        }
        Some(cur)
    }
}


/// Whether the package directly holds a declaration of the given name.
pub open spec fn has_decl(p: Package, name: Seq<char>) -> bool {
    exists|k: int| 0 <= k < p.decl_list@.len() && (#[trigger] p.decl_list@[k]).spec_name() == name
}

/// A chain of fresh packages whose deepest member holds exactly the one
/// declaration.
pub open spec fn fresh_chain_decl(p: Package, segs: Seq<Seq<char>>, decl: Declaration) -> bool
    decreases segs.len(),
{
    &&& segs.len() > 0
    &&& p.name@ == segs[0]
    &&& if segs.len() == 1 {
        &&& p.package_list@.len() == 0
        &&& p.decl_list@ == seq![decl]
    } else {
        &&& p.decl_list@.len() == 0
        &&& p.package_list@.len() == 1
        &&& fresh_chain_decl(p.package_list@[0], segs.skip(1), decl)
    }
}

/// How a tree changes when a declaration is added at a child path: the
/// segments are followed as far as they match, missing packages are created,
/// and the declaration is appended to the deepest package on the path.
pub open spec fn spec_decl_added(
    p1: Package,
    p2: Package,
    segs: Seq<Seq<char>>,
    decl: Declaration,
) -> bool
    decreases segs.len(),
{
    if segs.len() == 0 {
        &&& p2.name == p1.name
        &&& p2.package_list == p1.package_list
        &&& p2.decl_list@ == p1.decl_list@.push(decl)
    } else {
        let i = idx_of_name(p1.package_list@, segs[0]);
        &&& p2.name == p1.name
        &&& p2.decl_list == p1.decl_list
        &&& if i < p1.package_list@.len() {
            &&& p2.package_list@.len() == p1.package_list@.len()
            &&& (forall|k: int|
                0 <= k < p1.package_list@.len() && k != i ==> p2.package_list@[k]
                    == p1.package_list@[k])
            &&& spec_decl_added(p1.package_list@[i], p2.package_list@[i], segs.skip(1), decl)
        } else {
            &&& p2.package_list@ == p1.package_list@.push(p2.package_list@.last())
            &&& fresh_chain_decl(p2.package_list@.last(), segs, decl)
        }
    }
}

/// Adding a declaration keeps the package's own name.
pub proof fn lemma_decl_added_name(
    p1: Package,
    p2: Package,
    segs: Seq<Seq<char>>,
    decl: Declaration,
)
    requires
        spec_decl_added(p1, p2, segs, decl),
    ensures
        p2.name == p1.name,
{
    if segs.len() == 0 {
    }
}

impl Package {
    /// Build the fresh chain for the segments from position `j` on, with the
    /// declaration in its deepest package.
    pub(crate) fn build_chain_decl(segs: &[String], j: usize, decl: Declaration) -> (r: Package)
        requires
            0 <= j < segs@.len(),
            forall|k: int| 0 <= k < segs@.len() ==> seg_ok(#[trigger] segs.deep_view()[k]),
            !decl.spec_name().contains('\x00'),
        ensures
            fresh_chain_decl(r, segs.deep_view().skip(j as int), decl),
            r.wf(),
        decreases segs@.len() - j,
    {
        let name = segs[j].clone();
        let mut decl_list: Vec<Declaration> = Vec::new();
        let mut package_list: Vec<Package> = Vec::new();
        if j + 1 < segs.len() {
            package_list.push(Package::build_chain_decl(segs, j + 1, decl));
        } else {
            decl_list.push(decl);
        }
        let r = Package { name, decl_list, package_list };
        proof {
            let ss = segs.deep_view().skip(j as int);
            assert(ss[0] == segs.deep_view()[j as int]);
            if j + 1 < segs@.len() {
                assert(ss.skip(1) =~= segs.deep_view().skip(j as int + 1));
            }
        }
        r
    }

    /// Follow the segments from position `j`, creating missing packages, and
    /// append the declaration to the deepest package on the path.
    fn add_decl_rec(&mut self, segs: &[String], j: usize, decl: Declaration)
        requires
            old(self).wf(),
            0 <= j <= segs@.len(),
            forall|k: int| 0 <= k < segs@.len() ==> seg_ok(#[trigger] segs.deep_view()[k]),
            !decl.spec_name().contains('\x00'),
            match_depth(*old(self), segs.deep_view().skip(j as int)) == segs@.len() - j
                ==> !has_decl(
                walk_to(*old(self), segs.deep_view().skip(j as int)),
                decl.spec_name(),
            ),
        ensures
            final(self).wf(),
            spec_decl_added(*old(self), *final(self), segs.deep_view().skip(j as int), decl),
        decreases segs@.len() - j,
    {
        let ghost ss = segs.deep_view().skip(j as int);
        if j == segs.len() {
            proof {
                assert(ss =~= Seq::<Seq<char>>::empty());
                assert(walk_to(*old(self), ss) == *old(self));
            }
            self.decl_list.push(decl);
            proof {
                assert forall|a: int, b: int|
                    0 <= a < b < self.decl_list@.len() implies (
                #[trigger] self.decl_list@[a]).spec_name() != (
                #[trigger] self.decl_list@[b]).spec_name() by {
                    if b == self.decl_list@.len() - 1 {
                        assert(!has_decl(*old(self), decl.spec_name()));
                        assert(old(self).decl_list@[a] == self.decl_list@[a]);
                    }
                }
            }
            return ;
        }
        proof {
            assert(ss[0] == segs.deep_view()[j as int]);
            assert(segs.deep_view()[j as int] == segs@[j as int]@);
        }
        let n = self.package_list.len();
        let mut i: usize = 0;
        while i < n
            invariant
                *self == *old(self),
                self.wf(),
                n == self.package_list@.len(),
                0 <= i <= n,
                0 <= j < segs@.len(),
                forall|k: int| 0 <= k < segs@.len() ==> seg_ok(#[trigger] segs.deep_view()[k]),
                !decl.spec_name().contains('\x00'),
                ss == segs.deep_view().skip(j as int),
                ss[0] == segs@[j as int]@,
                ss.len() == segs@.len() - j,
                match_depth(*old(self), ss) == ss.len() ==> !has_decl(
                    walk_to(*old(self), ss),
                    decl.spec_name(),
                ),
                forall|k: int| 0 <= k < i ==> (#[trigger] self.package_list@[k]).name@
                    != segs@[j as int]@,
            decreases n - i,
        {
            if self.package_list[i].name == segs[j] {
                proof {
                    lemma_idx_at(self.package_list@, segs@[j as int]@, i as int);
                    assert(ss.skip(1) =~= segs.deep_view().skip(j as int + 1));
                    lemma_match_depth_bounds(
                        self.package_list@[i as int],
                        segs.deep_view().skip(j as int + 1),
                    );
                }
                let ghost t1 = *self;
                let child = &mut self.package_list[i];
                child.add_decl_rec(segs, j + 1, decl);
                proof {
                    assert(self.package_list@ == t1.package_list@.update(
                        i as int,
                        self.package_list@[i as int],
                    ));
                    lemma_decl_added_name(
                        t1.package_list@[i as int],
                        self.package_list@[i as int],
                        ss.skip(1),
                        decl,
                    );
                    assert(spec_decl_added(t1, *self, ss, decl));
                    assert(self.wf()) by {
                        assert forall|k: int|
                            0 <= k < self.package_list@.len() implies (
                        #[trigger] self.package_list@[k]).wf() by {
                            if k != i as int {
                                assert(self.package_list@[k] == t1.package_list@[k]);
                            }
                        }
                    }
                }
                return ;
            }
            i = i + 1;
        }
        proof {
            lemma_idx_props(self.package_list@, segs@[j as int]@);
        }
        let fresh = Package::build_chain_decl(segs, j, decl);
        let ghost t1 = *self;
        self.package_list.push(fresh);
        proof {
            assert(spec_decl_added(t1, *self, ss, decl)) by {
                assert(self.package_list@ == t1.package_list@.push(fresh));
                assert(self.package_list@.last() == fresh);
            }
            assert(self.wf()) by {
                assert forall|k2: int|
                    0 <= k2 < self.package_list@.len() implies (
                #[trigger] self.package_list@[k2]).wf() by {
                    if k2 < t1.package_list@.len() {
                        assert(self.package_list@[k2] == t1.package_list@[k2]);
                    }
                }
            }
        }
    }

    /// Add a declaration to the package named by the path, creating missing
    /// packages on the way. Returns false when the first segment does not
    /// match this package's name; refuses a declaration whose name the
    /// target package already holds.
    pub fn add_decl(&mut self, pkg: &str, decl: Declaration) -> (r: Result<
        bool,
        NamespaceError,
    >)
        requires
            old(self).wf(),
            valid_path(pkg@),
            !decl.spec_name().contains('\x00'),
        ensures
            final(self).wf(),
            ({
                let segs = split_path(pkg@);
                let ss = segs.skip(1);
                let d = match_depth(*old(self), ss);
                if segs[0] != old(self).name@ {
                    &&& r == Ok::<bool, NamespaceError>(false)
                    &&& *final(self) == *old(self)
                } else if d == ss.len() && has_decl(walk_to(*old(self), ss), decl.spec_name()) {
                    &&& r == Err::<bool, NamespaceError>(NamespaceError::DuplicateDeclaration)
                    &&& *final(self) == *old(self)
                } else {
                    &&& r == Ok::<bool, NamespaceError>(true)
                    &&& spec_decl_added(*old(self), *final(self), ss, decl)
                }
            }),
    {
        let segs = split_segments(pkg);
        proof {
            lemma_split_len(pkg@);
            assert(segs.deep_view()[0] == segs@[0]@);
        }
        if !(self.name == segs[0]) {
            return Ok(false);
        }
        let ghost ss = segs.deep_view().skip(1);
        proof {
            lemma_match_depth_bounds(*self, ss);
        }
        let (deepest, pos) = self.descend(segs.as_slice(), 1);
        if pos == segs.len() {
            proof {
                assert(ss.take(match_depth(*self, ss)) =~= ss);
            }
            // the whole path exists: refuse a duplicate declaration name
            let dn = deepest.decl_list.len();
            let mut k: usize = 0;
            while k < dn
                invariant
                    *self == *old(self),
                    self.wf(),
                    0 <= k <= dn,
                    dn == deepest.decl_list@.len(),
                    ss == split_path(pkg@).skip(1),
                    ss == segs.deep_view().skip(1),
                    match_depth(*self, ss) == ss.len(),
                    *deepest == walk_to(*self, ss),
                    split_path(pkg@)[0] == old(self).name@,
                    forall|m: int| 0 <= m < k ==> (#[trigger] deepest.decl_list@[m]).spec_name()
                        != decl.spec_name(),
                decreases dn - k,
            {
                if deepest.decl_list[k].name().to_owned() == decl.name().to_owned() {
                    proof {
                        assert(deepest.decl_list@[k as int].spec_name() == decl.spec_name());
                        assert(has_decl(walk_to(*self, ss), decl.spec_name()));
                    }
                    return Err(NamespaceError::DuplicateDeclaration);
                }
                k = k + 1;
            }
            proof {
                assert(!has_decl(walk_to(*self, ss), decl.spec_name()));
            }
        }
        self.add_decl_rec(segs.as_slice(), 1, decl);
        Ok(true)
    }
}


/// The fully qualified names of all packages of a tree: the package itself,
/// then its subtrees in order, depth first.
pub open spec fn spec_pkg_names(prefix: Seq<char>, p: Package) -> Seq<Seq<char>>
    decreases p,
{
    seq![prefix + p.name@] + spec_pkg_names_list(prefix + p.name@ + seq!['.'], p.package_list@)
}

/// The fully qualified package names of a forest, in order.
pub open spec fn spec_pkg_names_list(prefix: Seq<char>, ps: Seq<Package>) -> Seq<Seq<char>>
    decreases ps,
{
    if ps.len() == 0 {
        Seq::<Seq<char>>::empty()
    } else {
        spec_pkg_names(prefix, ps[0]) + spec_pkg_names_list(prefix, ps.skip(1))
    }
}

/// The fully qualified names of all declarations of a tree: the package's
/// own declarations in order, then its subtrees in order, depth first.
pub open spec fn spec_decl_names(prefix: Seq<char>, p: Package) -> Seq<Seq<char>>
    decreases p,
{
    p.decl_list@.map_values(|d: Declaration| prefix + p.name@ + seq!['.'] + d.spec_name())
        + spec_decl_names_list(prefix + p.name@ + seq!['.'], p.package_list@)
}

/// The fully qualified declaration names of a forest, in order.
pub open spec fn spec_decl_names_list(prefix: Seq<char>, ps: Seq<Package>) -> Seq<Seq<char>>
    decreases ps,
{
    if ps.len() == 0 {
        Seq::<Seq<char>>::empty()
    } else {
        spec_decl_names(prefix, ps[0]) + spec_decl_names_list(prefix, ps.skip(1))
    }
}

/// One more tree of a forest adds its names at the end.
pub proof fn lemma_pkg_names_snoc(prefix: Seq<char>, ps: Seq<Package>, i: int)
    requires
        0 <= i < ps.len(),
    ensures
        spec_pkg_names_list(prefix, ps.take(i + 1)) == spec_pkg_names_list(prefix, ps.take(i))
            + spec_pkg_names(prefix, ps[i]),
    decreases i,
{
    if i == 0 {
        assert(ps.take(1)[0] == ps[0]);
        assert(ps.take(1).skip(1) =~= Seq::<Package>::empty());
        assert(ps.take(0) =~= Seq::<Package>::empty());
        assert(spec_pkg_names_list(prefix, ps.take(1)) =~= spec_pkg_names(prefix, ps[0]));
        assert(spec_pkg_names_list(prefix, ps.take(0)) =~= Seq::<Seq<char>>::empty());
    } else {
        lemma_pkg_names_snoc(prefix, ps.skip(1), i - 1);
        assert(ps.take(i + 1)[0] == ps[0]);
        assert(ps.take(i)[0] == ps[0]);
        assert(ps.take(i + 1).skip(1) =~= ps.skip(1).take(i));
        assert(ps.take(i).skip(1) =~= ps.skip(1).take(i - 1));
        assert(ps.skip(1)[i - 1] == ps[i]);
        assert(spec_pkg_names_list(prefix, ps.take(i + 1)) =~= spec_pkg_names_list(
            prefix,
            ps.take(i),
        ) + spec_pkg_names(prefix, ps[i]));
    }
}

/// One more tree of a forest adds its declaration names at the end.
pub proof fn lemma_decl_names_snoc(prefix: Seq<char>, ps: Seq<Package>, i: int)
    requires
        0 <= i < ps.len(),
    ensures
        spec_decl_names_list(prefix, ps.take(i + 1)) == spec_decl_names_list(prefix, ps.take(i))
            + spec_decl_names(prefix, ps[i]),
    decreases i,
{
    if i == 0 {
        assert(ps.take(1)[0] == ps[0]);
        assert(ps.take(1).skip(1) =~= Seq::<Package>::empty());
        assert(ps.take(0) =~= Seq::<Package>::empty());
        assert(spec_decl_names_list(prefix, Seq::<Package>::empty())
            == Seq::<Seq<char>>::empty());
        assert(spec_decl_names_list(prefix, ps.take(1)) =~= spec_decl_names(prefix, ps[0]));
        assert(spec_decl_names_list(prefix, ps.take(0)) =~= Seq::<Seq<char>>::empty());
    } else {
        lemma_decl_names_snoc(prefix, ps.skip(1), i - 1);
        assert(ps.take(i + 1)[0] == ps[0]);
        assert(ps.take(i)[0] == ps[0]);
        assert(ps.take(i + 1).skip(1) =~= ps.skip(1).take(i));
        assert(ps.take(i).skip(1) =~= ps.skip(1).take(i - 1));
        assert(ps.skip(1)[i - 1] == ps[i]);
        assert(spec_decl_names_list(prefix, ps.take(i + 1)) =~= spec_decl_names_list(
            prefix,
            ps.take(i),
        ) + spec_decl_names(prefix, ps[i]));
    }
}

impl Package {
    /// Generate a list of fully qualified package names: for the tree built
    /// from com.tom.example this produces com, com.tom and com.tom.example.
    pub fn gen_package_completion_list(&self) -> (r: Vec<String>)
        ensures
            r.deep_view() == spec_pkg_names(Seq::<char>::empty(), *self),
    {
        let mut out: Vec<String> = Vec::new();
        let prefix = String::new();
        self.gen_pkg_into(&prefix, &mut out);
        proof {
            assert(out.deep_view() =~= spec_pkg_names(Seq::<char>::empty(), *self));
        }
        out
    }

    /// Append this tree's qualified package names under the given prefix.
    fn gen_pkg_into(&self, prefix: &String, out: &mut Vec<String>)
        ensures
            final(out).deep_view() == old(out).deep_view() + spec_pkg_names(prefix@, *self),
        decreases *self,
    {
        let mut full = prefix.clone();
        full.append(self.name.as_str());
        out.push(full.clone());
        proof {
            reveal_strlit(".");
        }
        full.append(".");
        let ghost fullv = full@;
        let ghost base = out.deep_view();
        let n = self.package_list.len();
        let mut i: usize = 0;
        while i < n
            invariant
                n == self.package_list@.len(),
                0 <= i <= n,
                fullv == prefix@ + self.name@ + seq!['.'],
                full@ == fullv,
                base == old(out).deep_view() + seq![prefix@ + self.name@],
                out.deep_view() == base + spec_pkg_names_list(
                    fullv,
                    self.package_list@.take(i as int),
                ),
            decreases n - i,
        {
            self.package_list[i].gen_pkg_into(&full, out);
            proof {
                lemma_pkg_names_snoc(fullv, self.package_list@, i as int);
            }
            i = i + 1;
        }
        proof {
            assert(self.package_list@.take(n as int) =~= self.package_list@);
            assert(out.deep_view() =~= old(out).deep_view() + spec_pkg_names(prefix@, *self));
        }
    }

    /// Generate a list of fully qualified declaration names.
    pub fn gen_decl_completion_list(&self) -> (r: Vec<String>)
        ensures
            r.deep_view() == spec_decl_names(Seq::<char>::empty(), *self),
    {
        let mut out: Vec<String> = Vec::new();
        let prefix = String::new();
        self.gen_decl_into(&prefix, &mut out);
        proof {
            assert(out.deep_view() =~= spec_decl_names(Seq::<char>::empty(), *self));
        }
        out
    }

    /// Append this tree's qualified declaration names under the given
    /// prefix.
    fn gen_decl_into(&self, prefix: &String, out: &mut Vec<String>)
        ensures
            final(out).deep_view() == old(out).deep_view() + spec_decl_names(prefix@, *self),
        decreases *self,
    {
        let mut full = prefix.clone();
        full.append(self.name.as_str());
        proof {
            reveal_strlit(".");
        }
        full.append(".");
        let ghost fullv = full@;
        let ghost base = out.deep_view();
        let ghost dmap = self.decl_list@.map_values(
            |d: Declaration| prefix@ + self.name@ + seq!['.'] + d.spec_name(),
        );
        let dn = self.decl_list.len();
        let mut k: usize = 0;
        while k < dn
            invariant
                dn == self.decl_list@.len(),
                0 <= k <= dn,
                fullv == prefix@ + self.name@ + seq!['.'],
                full@ == fullv,
                base == old(out).deep_view(),
                dmap == self.decl_list@.map_values(
                    |d: Declaration| prefix@ + self.name@ + seq!['.'] + d.spec_name(),
                ),
                out.deep_view() == base + dmap.take(k as int),
            decreases dn - k,
        {
            let mut qual = full.clone();
            qual.append(self.decl_list[k].name());
            let ghost before = out.deep_view();
            out.push(qual);
            proof {
                assert(dmap[k as int] == fullv + self.decl_list@[k as int].spec_name());
                assert(out.deep_view() =~= before.push(dmap[k as int]));
                assert(dmap.take(k as int + 1) =~= dmap.take(k as int).push(dmap[k as int]));
            }
            k = k + 1;
        }
        let ghost base2 = out.deep_view();
        let n = self.package_list.len();
        let mut i: usize = 0;
        while i < n
            invariant
                n == self.package_list@.len(),
                0 <= i <= n,
                fullv == prefix@ + self.name@ + seq!['.'],
                full@ == fullv,
                base2 == old(out).deep_view() + dmap,
                dmap == self.decl_list@.map_values(
                    |d: Declaration| prefix@ + self.name@ + seq!['.'] + d.spec_name(),
                ),
                out.deep_view() == base2 + spec_decl_names_list(
                    fullv,
                    self.package_list@.take(i as int),
                ),
            decreases n - i,
        {
            self.package_list[i].gen_decl_into(&full, out);
            proof {
                lemma_decl_names_snoc(fullv, self.package_list@, i as int);
            }
            i = i + 1;
        }
        proof {
            assert(self.package_list@.take(n as int) =~= self.package_list@);
            assert(dmap =~= self.decl_list@.map_values(
                |d: Declaration| fullv + d.spec_name(),
            ));
            assert(out.deep_view() =~= old(out).deep_view() + spec_decl_names(prefix@, *self));
        }
    }
}


/// Concatenation introduces no new characters.
proof fn lemma_concat_no_char(a: Seq<char>, b: Seq<char>, c: char)
    requires
        !a.contains(c),
        !b.contains(c),
    ensures
        !(a + b).contains(c),
{
    assert forall|i: int| 0 <= i < (a + b).len() implies (a + b)[i] != c by {
        if i < a.len() {
            assert(a[i] == (a + b)[i]);
        } else {
            assert(b[i - a.len()] == (a + b)[i]);
        }
    }
}

/// Qualified package names of a well-formed tree never contain the search
/// buffer's sentinel.
pub proof fn lemma_pkg_names_no_nul(prefix: Seq<char>, p: Package)
    requires
        p.wf(),
        !prefix.contains('\x00'),
    ensures
        forall|i: int|
            0 <= i < spec_pkg_names(prefix, p).len() ==> !(#[trigger] spec_pkg_names(prefix, p)[i]).contains('\x00'),
    decreases p,
{
    lemma_concat_no_char(prefix, p.name@, '\x00');
    assert(!seq!['.'].contains('\x00')) by {
        assert(seq!['.'][0] == '.');
    }
    lemma_concat_no_char(prefix + p.name@, seq!['.'], '\x00');
    lemma_pkg_names_list_no_nul(prefix + p.name@ + seq!['.'], p.package_list@);
    assert forall|i: int| 0 <= i < spec_pkg_names(prefix, p).len() implies !(
    #[trigger] spec_pkg_names(prefix, p)[i]).contains('\x00') by {
        if i == 0 {
            assert(spec_pkg_names(prefix, p)[0] == prefix + p.name@);
        } else {
            assert(spec_pkg_names(prefix, p)[i] == spec_pkg_names_list(
                prefix + p.name@ + seq!['.'],
                p.package_list@,
            )[i - 1]);
        }
    }
}

/// The same, over a well-formed forest.
pub proof fn lemma_pkg_names_list_no_nul(prefix: Seq<char>, ps: Seq<Package>)
    requires
        forall|k: int| 0 <= k < ps.len() ==> (#[trigger] ps[k]).wf(),
        !prefix.contains('\x00'),
    ensures
        forall|i: int|
            0 <= i < spec_pkg_names_list(prefix, ps).len() ==> !(
            #[trigger] spec_pkg_names_list(prefix, ps)[i]).contains('\x00'),
    decreases ps,
{
    if ps.len() > 0 {
        lemma_pkg_names_no_nul(prefix, ps[0]);
        lemma_pkg_names_list_no_nul(prefix, ps.skip(1));
        let head = spec_pkg_names(prefix, ps[0]);
        let rest = spec_pkg_names_list(prefix, ps.skip(1));
        assert forall|i: int| 0 <= i < spec_pkg_names_list(prefix, ps).len() implies !(
        #[trigger] spec_pkg_names_list(prefix, ps)[i]).contains('\x00') by {
            if i < head.len() {
                assert(spec_pkg_names_list(prefix, ps)[i] == head[i]);
            } else {
                assert(spec_pkg_names_list(prefix, ps)[i] == rest[i - head.len()]);
            }
        }
    }
}

/// Qualified declaration names of a well-formed tree never contain the
/// search buffer's sentinel.
pub proof fn lemma_decl_names_no_nul(prefix: Seq<char>, p: Package)
    requires
        p.wf(),
        !prefix.contains('\x00'),
    ensures
        forall|i: int|
            0 <= i < spec_decl_names(prefix, p).len() ==> !(
            #[trigger] spec_decl_names(prefix, p)[i]).contains('\x00'),
    decreases p,
{
    lemma_concat_no_char(prefix, p.name@, '\x00');
    assert(!seq!['.'].contains('\x00')) by {
        assert(seq!['.'][0] == '.');
    }
    lemma_concat_no_char(prefix + p.name@, seq!['.'], '\x00');
    lemma_decl_names_list_no_nul(prefix + p.name@ + seq!['.'], p.package_list@);
    let dmap = p.decl_list@.map_values(
        |d: Declaration| prefix + p.name@ + seq!['.'] + d.spec_name(),
    );
    assert forall|i: int| 0 <= i < spec_decl_names(prefix, p).len() implies !(
    #[trigger] spec_decl_names(prefix, p)[i]).contains('\x00') by {
        if i < dmap.len() {
            assert(spec_decl_names(prefix, p)[i] == dmap[i]);
            assert(dmap[i] == prefix + p.name@ + seq!['.'] + p.decl_list@[i].spec_name());
            lemma_concat_no_char(
                prefix + p.name@ + seq!['.'],
                p.decl_list@[i].spec_name(),
                '\x00',
            );
        } else {
            assert(spec_decl_names(prefix, p)[i] == spec_decl_names_list(
                prefix + p.name@ + seq!['.'],
                p.package_list@,
            )[i - dmap.len()]);
        }
    }
}

/// The same, over a well-formed forest.
pub proof fn lemma_decl_names_list_no_nul(prefix: Seq<char>, ps: Seq<Package>)
    requires
        forall|k: int| 0 <= k < ps.len() ==> (#[trigger] ps[k]).wf(),
        !prefix.contains('\x00'),
    ensures
        forall|i: int|
            0 <= i < spec_decl_names_list(prefix, ps).len() ==> !(
            #[trigger] spec_decl_names_list(prefix, ps)[i]).contains('\x00'),
    decreases ps,
{
    if ps.len() > 0 {
        lemma_decl_names_no_nul(prefix, ps[0]);
        lemma_decl_names_list_no_nul(prefix, ps.skip(1));
        let head = spec_decl_names(prefix, ps[0]);
        let rest = spec_decl_names_list(prefix, ps.skip(1));
        assert forall|i: int| 0 <= i < spec_decl_names_list(prefix, ps).len() implies !(
        #[trigger] spec_decl_names_list(prefix, ps)[i]).contains('\x00') by {
            if i < head.len() {
                assert(spec_decl_names_list(prefix, ps)[i] == head[i]);
            } else {
                assert(spec_decl_names_list(prefix, ps)[i] == rest[i - head.len()]);
            }
        }
    }
}

/// The completion names of a well-formed forest, for the search index: all
/// qualified package names, and all qualified declaration names.
pub open spec fn all_pkg_names(ps: Seq<Package>) -> Seq<Seq<char>> {
    spec_pkg_names_list(Seq::<char>::empty(), ps)
}

pub open spec fn all_decl_names(ps: Seq<Package>) -> Seq<Seq<char>> {
    spec_decl_names_list(Seq::<char>::empty(), ps)
}

/// The two sentinel-freedom facts, packaged for the completion index.
pub proof fn lemma_all_names_no_nul(ps: Seq<Package>)
    requires
        forall|k: int| 0 <= k < ps.len() ==> (#[trigger] ps[k]).wf(),
    ensures
        forall|i: int|
            0 <= i < all_pkg_names(ps).len() ==> !(#[trigger] all_pkg_names(ps)[i]).contains(
                '\x00',
            ),
        forall|i: int|
            0 <= i < all_decl_names(ps).len() ==> !(#[trigger] all_decl_names(ps)[i]).contains(
                '\x00',
            ),
{
    lemma_pkg_names_list_no_nul(Seq::<char>::empty(), ps);
    lemma_decl_names_list_no_nul(Seq::<char>::empty(), ps);
}

/// How a forest changes when a dotted path is added into it: the root whose
/// name is the first segment takes the rest, or a whole fresh chain joins
/// the forest.
pub open spec fn spec_forest_added(ps1: Seq<Package>, ps2: Seq<Package>, segs: Seq<Seq<char>>) -> bool {
    let i = idx_of_name(ps1, segs[0]);
    if i < ps1.len() {
        &&& ps2.len() == ps1.len()
        &&& (forall|k: int| 0 <= k < ps1.len() && k != i ==> ps2[k] == ps1[k])
        &&& spec_added(ps1[i], ps2[i], segs.skip(1))
    } else {
        &&& ps2 == ps1.push(ps2.last())
        &&& fresh_chain(ps2.last(), segs)
    }
}

/// How a forest changes when a declaration is added at a dotted path.
pub open spec fn spec_forest_decl_added(
    ps1: Seq<Package>,
    ps2: Seq<Package>,
    segs: Seq<Seq<char>>,
    decl: Declaration,
) -> bool {
    let i = idx_of_name(ps1, segs[0]);
    if i < ps1.len() {
        &&& ps2.len() == ps1.len()
        &&& (forall|k: int| 0 <= k < ps1.len() && k != i ==> ps2[k] == ps1[k])
        &&& spec_decl_added(ps1[i], ps2[i], segs.skip(1), decl)
    } else {
        &&& ps2 == ps1.push(ps2.last())
        &&& fresh_chain_decl(ps2.last(), segs, decl)
    }
}


/// The first index in a declaration list whose declaration carries the given
/// name, or the length when none does.
pub open spec fn decl_idx_of(ds: Seq<Declaration>, name: Seq<char>) -> int
    decreases ds.len(),
{
    if ds.len() == 0 {
        0
    } else if ds[0].spec_name() == name {
        0
    } else {
        1 + decl_idx_of(ds.skip(1), name)
    }
}

proof fn lemma_decl_idx_props(ds: Seq<Declaration>, name: Seq<char>)
    ensures
        0 <= decl_idx_of(ds, name) <= ds.len(),
        decl_idx_of(ds, name) < ds.len() ==> ds[decl_idx_of(ds, name)].spec_name() == name,
        forall|k: int| 0 <= k < decl_idx_of(ds, name) ==> ds[k].spec_name() != name,
        decl_idx_of(ds, name) == ds.len() ==> forall|k: int|
            0 <= k < ds.len() ==> ds[k].spec_name() != name,
    decreases ds.len(),
{
    if ds.len() == 0 {
    } else if ds[0].spec_name() == name {
    } else {
        lemma_decl_idx_props(ds.skip(1), name);
        assert forall|k: int| 0 <= k < decl_idx_of(ds, name) implies ds[k].spec_name() != name by {
            if k > 0 {
                assert(ds.skip(1)[k - 1] == ds[k]);
            }
        }
        if decl_idx_of(ds, name) == ds.len() {
            assert forall|k: int| 0 <= k < ds.len() implies ds[k].spec_name() != name by {
                if k > 0 {
                    assert(ds.skip(1)[k - 1] == ds[k]);
                }
            }
        }
    }
}

proof fn lemma_decl_idx_at(ds: Seq<Declaration>, name: Seq<char>, i: int)
    requires
        0 <= i < ds.len(),
        forall|k: int| 0 <= k < i ==> ds[k].spec_name() != name,
        ds[i].spec_name() == name,
    ensures
        decl_idx_of(ds, name) == i,
    decreases i,
{
    if i == 0 {
    } else {
        assert forall|k: int| 0 <= k < i - 1 implies ds.skip(1)[k].spec_name() != name by {
            assert(ds.skip(1)[k] == ds[k + 1]);
        }
        assert(ds.skip(1)[i - 1] == ds[i]);
        lemma_decl_idx_at(ds.skip(1), name, i - 1);
    }
}

/// The member a new field becomes: a private variable of the given name,
/// with no type filled in yet.
pub open spec fn is_new_field_member(m: ClassMember, field_name: Seq<char>) -> bool {
    match m {
        ClassMember::Field(f) => {
            &&& f.name@ == field_name
            &&& f.field_type@.len() == 0
            &&& f.modifiers@ == seq![Modifier::Private]
        },
    }
}

/// The declaration at the first index of the given name took one more
/// member; everything else stands.
pub open spec fn spec_member_pushed(
    p1: Package,
    p2: Package,
    dname: Seq<char>,
    m: ClassMember,
) -> bool {
    let di = decl_idx_of(p1.decl_list@, dname);
    &&& di < p1.decl_list@.len()
    &&& p2.name == p1.name
    &&& p2.package_list == p1.package_list
    &&& p2.decl_list@.len() == p1.decl_list@.len()
    &&& (forall|k: int|
        0 <= k < p1.decl_list@.len() && k != di ==> p2.decl_list@[k] == p1.decl_list@[k])
    &&& match (p1.decl_list@[di], p2.decl_list@[di]) {
        (Declaration::Class(c1), Declaration::Class(c2)) => {
            &&& c2.name == c1.name
            &&& c2.type_params == c1.type_params
            &&& c2.implements == c1.implements
            &&& c2.extends == c1.extends
            &&& c2.inner_classes == c1.inner_classes
            &&& c2.modifiers == c1.modifiers
            &&& c2.members@ == c1.members@.push(m)
        },
    }
}

/// How a tree changes when a member is added at a dotted declaration path:
/// the package segments are followed, and the member joins the named
/// declaration of the final package.
pub open spec fn spec_member_added(
    p1: Package,
    p2: Package,
    segs: Seq<Seq<char>>,
    m: ClassMember,
) -> bool
    decreases segs.len(),
{
    if segs.len() == 0 {
        false
    } else if segs.len() == 1 {
        spec_member_pushed(p1, p2, segs[0], m)
    } else {
        let i = idx_of_name(p1.package_list@, segs[0]);
        &&& i < p1.package_list@.len()
        &&& p2.name == p1.name
        &&& p2.decl_list == p1.decl_list
        &&& p2.package_list@.len() == p1.package_list@.len()
        &&& (forall|k: int|
            0 <= k < p1.package_list@.len() && k != i ==> p2.package_list@[k]
                == p1.package_list@[k])
        &&& spec_member_added(p1.package_list@[i], p2.package_list@[i], segs.skip(1), m)
    }
}

/// Whether the dotted declaration path (package segments, then the
/// declaration's name) resolves in the tree.
pub open spec fn member_target_exists(p: Package, segs: Seq<Seq<char>>) -> bool
    decreases segs.len(),
{
    if segs.len() == 0 {
        false
    } else if segs.len() == 1 {
        decl_idx_of(p.decl_list@, segs[0]) < p.decl_list@.len()
    } else {
        let i = idx_of_name(p.package_list@, segs[0]);
        i < p.package_list@.len() && member_target_exists(p.package_list@[i], segs.skip(1))
    }
}

impl Package {
    /// Follow the package segments from position `j`; the last segment names
    /// a declaration of the final package, which takes one new private field
    /// member of the given name.
    pub(crate) fn add_member_rec(&mut self, segs: &[String], j: usize, field_name: &str)
        requires
            old(self).wf(),
            0 <= j < segs@.len(),
            member_target_exists(*old(self), segs.deep_view().skip(j as int)),
        ensures
            final(self).wf(),
            exists|m: ClassMember|
                is_new_field_member(m, field_name@) && spec_member_added(
                    *old(self),
                    *final(self),
                    segs.deep_view().skip(j as int),
                    m,
                ),
        decreases segs@.len() - j,
    {
        let ghost ss = segs.deep_view().skip(j as int);
        proof {
            assert(ss[0] == segs.deep_view()[j as int]);
            assert(segs.deep_view()[j as int] == segs@[j as int]@);
        }
        if j == segs.len() - 1 {
            // the segment names a declaration of this package
            let dn = self.decl_list.len();
            let mut k: usize = 0;
            while k < dn
                invariant
                    *self == *old(self),
                    self.wf(),
                    0 <= k <= dn,
                    dn == self.decl_list@.len(),
                    0 <= j < segs@.len(),
                    j + 1 == segs@.len(),
                    ss == segs.deep_view().skip(j as int),
                    ss[0] == segs@[j as int]@,
                    ss.len() == 1,
                    member_target_exists(*self, ss),
                    forall|m: int| 0 <= m < k ==> (#[trigger] self.decl_list@[m]).spec_name()
                        != segs@[j as int]@,
                decreases dn - k,
            {
                if self.decl_list[k].name().to_owned() == segs[j] {
                    proof {
                        lemma_decl_idx_at(self.decl_list@, segs@[j as int]@, k as int);
                    }
                    let mut mods: Vec<Modifier> = Vec::new();
                    mods.push(Modifier::Private);
                    proof {
                        assert(mods@ =~= seq![Modifier::Private]);
                    }
                    let member = ClassMember::Field(
                        Field {
                            modifiers: mods,
                            field_type: String::new(),
                            name: field_name.to_owned(),
                        },
                    );
                    let ghost mg = member;
                    let ghost t1 = *self;
                    let d = &mut self.decl_list[k];
                    match d {
                        Declaration::Class(c) => {
                            c.members.push(member);
                        },
                    }
                    proof {
                        assert(is_new_field_member(mg, field_name@));
                        assert(self.decl_list@ == t1.decl_list@.update(
                            k as int,
                            self.decl_list@[k as int],
                        ));
                        assert(self.decl_list@[k as int].spec_name()
                            == t1.decl_list@[k as int].spec_name());
                        assert(spec_member_pushed(t1, *self, ss[0], mg));
                        assert(spec_member_added(t1, *self, ss, mg));
                        assert(self.wf());
                    }
                    return ;
                }
                k = k + 1;
            }
            proof {
                lemma_decl_idx_props(self.decl_list@, segs@[j as int]@);
                assert(false);
            }
            return ;
        }
        // follow one more package segment
        let n = self.package_list.len();
        let mut i: usize = 0;
        while i < n
            invariant
                *self == *old(self),
                self.wf(),
                n == self.package_list@.len(),
                0 <= i <= n,
                0 <= j < segs@.len(),
                j + 1 < segs@.len(),
                ss == segs.deep_view().skip(j as int),
                ss[0] == segs@[j as int]@,
                ss.len() == segs@.len() - j,
                member_target_exists(*self, ss),
                forall|k: int| 0 <= k < i ==> (#[trigger] self.package_list@[k]).name@
                    != segs@[j as int]@,
            decreases n - i,
        {
            if self.package_list[i].name == segs[j] {
                proof {
                    lemma_idx_at(self.package_list@, segs@[j as int]@, i as int);
                    assert(ss.skip(1) =~= segs.deep_view().skip(j as int + 1));
                }
                let ghost t1 = *self;
                let child = &mut self.package_list[i];
                child.add_member_rec(segs, j + 1, field_name);
                proof {
                    assert(self.package_list@ == t1.package_list@.update(
                        i as int,
                        self.package_list@[i as int],
                    ));
                    {
                            let m = choose|m: ClassMember|
                                is_new_field_member(m, field_name@) && spec_member_added(
                                    t1.package_list@[i as int],
                                    self.package_list@[i as int],
                                    ss.skip(1),
                                    m,
                                );
                            assert(spec_member_added(t1, *self, ss, m)) by {
                                lemma_member_added_name(
                                    t1.package_list@[i as int],
                                    self.package_list@[i as int],
                                    ss.skip(1),
                                    m,
                                );
                            }
                            assert(self.wf()) by {
                                assert forall|k: int|
                                    0 <= k < self.package_list@.len() implies (
                                #[trigger] self.package_list@[k]).wf() by {
                                    if k != i as int {
                                        assert(self.package_list@[k] == t1.package_list@[k]);
                                    }
                                }
                                lemma_member_added_name(
                                    t1.package_list@[i as int],
                                    self.package_list@[i as int],
                                    ss.skip(1),
                                    m,
                                );
                            }
                        }
                }
                return ;
            }
            i = i + 1;
        }
        proof {
            lemma_idx_props(self.package_list@, segs@[j as int]@);
            assert(false);
        }
    }

    /// Whether the dotted declaration path (package segments, then the
    /// declaration name) resolves under this package.
    pub(crate) fn member_exists(&self, segs: &[String], j: usize) -> (r: bool)
        requires
            0 <= j < segs@.len(),
        ensures
            r == member_target_exists(*self, segs.deep_view().skip(j as int)),
        decreases segs@.len() - j,
    {
        let ghost ss = segs.deep_view().skip(j as int);
        proof {
            assert(ss[0] == segs.deep_view()[j as int]);
            assert(segs.deep_view()[j as int] == segs@[j as int]@);
        }
        if j == segs.len() - 1 {
            let dn = self.decl_list.len();
            let mut k: usize = 0;
            while k < dn
                invariant
                    0 <= k <= dn,
                    dn == self.decl_list@.len(),
                    0 <= j < segs@.len(),
                    ss == segs.deep_view().skip(j as int),
                    ss[0] == segs@[j as int]@,
                    ss.len() == 1,
                    forall|m: int| 0 <= m < k ==> (#[trigger] self.decl_list@[m]).spec_name()
                        != segs@[j as int]@,
                decreases dn - k,
            {
                if self.decl_list[k].name().to_owned() == segs[j] {
                    proof {
                        lemma_decl_idx_at(self.decl_list@, segs@[j as int]@, k as int);
                    }
                    return true;
                }
                k = k + 1;
            }
            proof {
                lemma_decl_idx_props(self.decl_list@, segs@[j as int]@);
            }
            return false;
        }
        let n = self.package_list.len();
        let mut i: usize = 0;
        while i < n
            invariant
                n == self.package_list@.len(),
                0 <= i <= n,
                0 <= j < segs@.len(),
                j < segs@.len() - 1,
                ss == segs.deep_view().skip(j as int),
                ss[0] == segs@[j as int]@,
                ss.len() == segs@.len() - j,
                forall|k: int| 0 <= k < i ==> (#[trigger] self.package_list@[k]).name@
                    != segs@[j as int]@,
            decreases n - i,
        {
            if self.package_list[i].name == segs[j] {
                proof {
                    lemma_idx_at(self.package_list@, segs@[j as int]@, i as int);
                    assert(ss.skip(1) =~= segs.deep_view().skip(j as int + 1));
                }
                return self.package_list[i].member_exists(segs, j + 1);
            }
            i = i + 1;
        }
        proof {
            lemma_idx_props(self.package_list@, segs@[j as int]@);
        }
        false
    }
}

/// Adding a member keeps the package's own name and its declaration names.
proof fn lemma_member_added_name(p1: Package, p2: Package, segs: Seq<Seq<char>>, m: ClassMember)
    requires
        spec_member_added(p1, p2, segs, m),
        segs.len() >= 1,
    ensures
        p2.name == p1.name,
        p2.decl_list@.len() == p1.decl_list@.len(),
        forall|k: int|
            0 <= k < p1.decl_list@.len() ==> (#[trigger] p2.decl_list@[k]).spec_name()
                == p1.decl_list@[k].spec_name(),
        p2.package_list@.len() == p1.package_list@.len(),
        forall|k: int|
            0 <= k < p1.package_list@.len() ==> (#[trigger] p2.package_list@[k]).name@
                == p1.package_list@[k].name@,
    decreases segs.len(),
{
    if segs.len() == 1 {
        let di = decl_idx_of(p1.decl_list@, segs[0]);
        assert forall|k: int| 0 <= k < p1.decl_list@.len() implies (
        #[trigger] p2.decl_list@[k]).spec_name() == p1.decl_list@[k].spec_name() by {
            if k == di {
                assert(match (p1.decl_list@[di], p2.decl_list@[di]) {
                    (Declaration::Class(c1), Declaration::Class(c2)) => c2.name == c1.name,
                });
            }
        }
    } else {
        let i = idx_of_name(p1.package_list@, segs[0]);
        lemma_member_added_name(p1.package_list@[i], p2.package_list@[i], segs.skip(1), m);
    }
}

/// Whether the forest carries the dotted path as packages.
pub open spec fn forest_has_path(ps: Seq<Package>, segs: Seq<Seq<char>>) -> bool {
    let i = idx_of_name(ps, segs[0]);
    i < ps.len() && match_depth(ps[i], segs.skip(1)) == segs.len() - 1
}


/// Public faces of a few internal lemmas, for the project layer.
pub proof fn lemma_split_len_pub(s: Seq<char>)
    ensures
        split_path(s).len() >= 1,
{
    lemma_split_len(s);
}

pub proof fn lemma_idx_at_pub(ps: Seq<Package>, seg: Seq<char>, i: int)
    requires
        0 <= i < ps.len(),
        forall|k: int| 0 <= k < i ==> ps[k].name@ != seg,
        ps[i].name@ == seg,
    ensures
        idx_of_name(ps, seg) == i,
{
    lemma_idx_at(ps, seg, i);
}

pub proof fn lemma_idx_props_pub(ps: Seq<Package>, seg: Seq<char>)
    ensures
        0 <= idx_of_name(ps, seg) <= ps.len(),
        idx_of_name(ps, seg) < ps.len() ==> ps[idx_of_name(ps, seg)].name@ == seg,
        idx_of_name(ps, seg) == ps.len() ==> forall|k: int|
            0 <= k < ps.len() ==> ps[k].name@ != seg,
{
    lemma_idx_props(ps, seg);
}

pub proof fn lemma_member_added_name_pub(
    p1: Package,
    p2: Package,
    segs: Seq<Seq<char>>,
    m: ClassMember,
)
    requires
        spec_member_added(p1, p2, segs, m),
        segs.len() >= 1,
    ensures
        p2.name == p1.name,
{
    lemma_member_added_name(p1, p2, segs, m);
}


/// A fresh chain carries exactly its segments as a descending path.
proof fn lemma_fresh_chain_depth(p: Package, segs: Seq<Seq<char>>)
    requires
        fresh_chain(p, segs),
    ensures
        segs.len() > 1 ==> match_depth(p, segs.skip(1)) == segs.len() - 1,
    decreases segs.len(),
{
    if segs.len() > 1 {
        let rest = segs.skip(1);
        assert(rest[0] == segs[1]);
        assert(p.package_list@.len() == 1 && fresh_chain(p.package_list@[0], rest));
        assert(p.package_list@[0].name@ == rest[0]);
        lemma_idx_at(p.package_list@, rest[0], 0);
        lemma_fresh_chain_depth(p.package_list@[0], segs.skip(1));
        if segs.len() > 2 {
            assert(rest.skip(1) =~= segs.skip(1).skip(1));
        } else {
            assert(rest.skip(1) =~= Seq::<Seq<char>>::empty());
        }
    }
}

/// Namespace sharing: after a path is added, every one of its segments can
/// be followed from the root - the tree now carries the whole path, reusing
/// the nodes it already had for any shared prefix (nothing else of the tree
/// moved, as `spec_added` states).
pub proof fn lemma_added_path_exists(p1: Package, p2: Package, segs: Seq<Seq<char>>)
    requires
        p1.wf(),
        spec_added(p1, p2, segs),
    ensures
        match_depth(p2, segs) == segs.len(),
    decreases segs.len(),
{
    if segs.len() == 0 {
    } else {
        let i = idx_of_name(p1.package_list@, segs[0]);
        lemma_idx_props(p1.package_list@, segs[0]);
        if i < p1.package_list@.len() {
            // the new tree finds the same child first
            assert forall|k: int| 0 <= k < i implies (#[trigger] p2.package_list@[k]).name@
                != segs[0] by {
                assert(p2.package_list@[k] == p1.package_list@[k]);
            }
            lemma_added_name(p1.package_list@[i], p2.package_list@[i], segs.skip(1));
            assert(p2.package_list@[i].name@ == segs[0]) by {
                if segs.skip(1).len() == 0 {
                }
            }
            lemma_idx_at(p2.package_list@, segs[0], i);
            lemma_added_path_exists(p1.package_list@[i], p2.package_list@[i], segs.skip(1));
            assert(match_depth(p2, segs) == 1 + match_depth(
                p2.package_list@[i],
                segs.skip(1),
            ));
        } else {
            // the fresh chain was appended at the end
            let f = p2.package_list@.len() - 1;
            assert(p2.package_list@.last() == p2.package_list@[f]);
            assert forall|k: int| 0 <= k < f implies (#[trigger] p2.package_list@[k]).name@
                != segs[0] by {
                assert(p2.package_list@[k] == p1.package_list@[k]);
            }
            assert(p2.package_list@[f].name@ == segs[0]);
            lemma_idx_at(p2.package_list@, segs[0], f);
            lemma_fresh_chain_depth(p2.package_list@[f], segs);
            if segs.len() > 1 {
                assert(match_depth(p2, segs) == 1 + match_depth(
                    p2.package_list@[f],
                    segs.skip(1),
                ));
            } else {
                assert(segs.skip(1) =~= Seq::<Seq<char>>::empty());
                assert(match_depth(p2.package_list@[f], Seq::<Seq<char>>::empty()) == 0);
                assert(match_depth(p2, segs) == 1);
            }
        }
    }
}

} // verus!
