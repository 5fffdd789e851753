//! The namespace tree: merging parsed package paths into a prefix tree.
use vstd::prelude::*;

use crate::paths::{dotted, lemma_dotted_injective, parse_path, seg_views, valid_path, well_dotted};

verus! {

/// One node of the namespace tree: a mapping from segment name to child
/// node, together with a flag that is true exactly when some requested
/// package path ends at this node.
#[derive(Debug, Default)]
pub struct Namespace {
    pub children: Vec<(String, Namespace)>,
    pub generate: bool,
}

impl Namespace {
    /// Child names are unique at every level of the tree.
    pub open spec fn wf(self) -> bool
        decreases self,
    {
        &&& forall|a: int, b: int|
            0 <= a < b < self.children@.len() ==> (#[trigger] self.children@[a]).0@ != (
            #[trigger] self.children@[b]).0@
        &&& forall|k: int|
            0 <= k < self.children@.len() ==> (#[trigger] self.children@[k]).1.wf()
    }

    /// Walking this subtree along `path` ends at a node whose `generate`
    /// flag is set.
    pub open spec fn has_mark(self, path: Seq<Seq<char>>) -> bool
        decreases path.len(),
    {
        if path.len() == 0 {
            self.generate
        } else {
            exists|k: int|
                0 <= k < self.children@.len() && (#[trigger] self.children@[k]).0@ == path[0]
                    && self.children@[k].1.has_mark(path.skip(1))
        }
    }

    /// Some node of this subtree, the node itself included, is marked.
    pub open spec fn marked_below(self) -> bool
        decreases self,
    {
        self.generate || exists|k: int|
            0 <= k < self.children@.len() && (#[trigger] self.children@[k]).1.marked_below()
    }

    /// Every subtree hanging off this node leads to at least one marked
    /// node; a childless node whose flag is clear therefore cannot occur
    /// below this one.
    pub open spec fn lively(self) -> bool
        decreases self,
    {
        forall|k: int|
            0 <= k < self.children@.len() ==> ((#[trigger] self.children@[k]).1.lively()
                && self.children@[k].1.marked_below())
    }

    /// A fresh node with no children.
    pub fn new(generate: bool) -> (ns: Namespace)
        ensures
            ns.children@.len() == 0,
            ns.generate == generate,
            ns.wf(),
            ns.lively(),
            ns.marked_below() == generate,
            forall|p: Seq<Seq<char>>| #[trigger] ns.has_mark(p) <==> (p.len() == 0 && generate),
    {
        let ns = Namespace { children: Vec::new(), generate };
        proof {
            assert forall|p: Seq<Seq<char>>| #[trigger] ns.has_mark(p) == (p.len() == 0
                && generate) by {
                if p.len() == 0 {
                } else {
                    assert(!ns.has_mark(p));
                }
            }
        }
        ns
    }

    /// Merges the suffix of `segs` that starts at `i` into this subtree,
    /// setting the `generate` flag of the node where the suffix ends.
    /// The marked paths afterwards are exactly the marked paths before
    /// plus that one suffix; nothing is ever unmarked.
    pub fn insert_from(&mut self, segs: &Vec<String>, i: usize)
        requires
            old(self).wf(),
            old(self).lively(),
            i < segs@.len(),
        ensures
            final(self).wf(),
            final(self).lively(),
            final(self).generate == old(self).generate,
            forall|p: Seq<Seq<char>>| #[trigger] final(self).has_mark(p) <==> (old(
                self,
            ).has_mark(p) || p == seg_views(segs@).skip(i as int)),
        decreases segs@.len() - i,
    {
        let ghost suffix = seg_views(segs@).skip(i as int);
        proof {
            assert(suffix.len() == segs@.len() - i);
            assert(suffix[0] == segs@[i as int]@);
            assert(suffix.skip(1) =~= seg_views(segs@).skip(i as int + 1));
        }
        let name: &String = &segs[i];
        proof {
            assert(name@ == segs@[i as int]@);
        }
        let len = segs.len();
        let n = self.children.len();
        let mut j: usize = 0;
        let mut found = false;
        while j < n && !found
            invariant
                *self == *old(self),
                n == self.children@.len(),
                j <= n,
                i < segs@.len(),
                name@ == segs@[i as int]@,
                !found ==> forall|k: int|
                    0 <= k < j ==> (#[trigger] self.children@[k]).0@ != segs@[i as int]@,
                found ==> j < n && self.children@[j as int].0@ == segs@[i as int]@,
            decreases n - j + (if found { 0int } else { 1int }),
        {
            let pair = &self.children[j];
            if pair.0 == *name {
                proof {
                    assert(self.children@[j as int].0@ == segs@[i as int]@);
                }
                found = true;
            } else {
                proof {
                    assert(self.children@[j as int].0@ != segs@[i as int]@);
                }
                j = j + 1;
            }
        }
        if found {
            let entry = self.children.remove(j);
            let cname = entry.0;
            let mut child = entry.1;
            let ghost old_child = child;
            proof {
                assert(old(self).wf());
                assert(old_child == old(self).children@[j as int].1);
                assert(old_child.wf());
                assert(old_child.lively());
            }
            if i + 1 == len {
                child.generate = true;
                proof {
                    assert(suffix.len() == 1);
                    assert(child.children@ == old_child.children@);
                    assert forall|q: Seq<Seq<char>>| #[trigger] child.has_mark(q) == (
                    old_child.has_mark(q) || q == suffix.skip(1)) by {
                        if q.len() == 0 {
                            assert(q =~= suffix.skip(1));
                            assert(child.has_mark(q));
                        } else {
                            lemma_mark_same_children(child, old_child, q);
                            assert(q.len() != suffix.skip(1).len());
                        }
                    }
                }
            } else {
                child.insert_from(segs, i + 1);
            }
            self.children.insert(j, (cname, child));
            proof {
                let cs0 = old(self).children@;
                let cs1 = self.children@;
                assert(cs1 =~= cs0.update(j as int, (cname, child)));
                assert(cs1[j as int].0@ == suffix[0]);
                assert(cs1[j as int].1 == child);
                // names are unchanged at every index
                assert forall|k: int| 0 <= k < cs1.len() implies (#[trigger] cs1[k]).0@ == cs0[
                    k].0@ by {}
                // the name at j occurs nowhere else
                assert forall|k: int| 0 <= k < cs0.len() && k != j as int implies (
                #[trigger] cs0[k]).0@ != suffix[0] by {
                    if k < j as int {
                        assert(cs0[k].0@ != cs0[j as int].0@);
                    } else {
                        assert(cs0[j as int].0@ != cs0[k].0@);
                    }
                }
                assert(self.wf()) by {
                    assert forall|k: int| 0 <= k < cs1.len() implies (#[trigger] cs1[k]).1.wf() by {
                        if k == j as int {
                            assert(child.wf()) by {
                                if i + 1 == segs@.len() {
                                    lemma_wf_same_children(child, old_child);
                                }
                            }
                        } else {
                            assert(cs1[k].1 == cs0[k].1);
                            assert(old(self).wf());
                        }
                    }
                }
                assert(self.lively()) by {
                    assert(child.has_mark(suffix.skip(1)));
                    lemma_mark_marked_below(child, suffix.skip(1));
                    assert forall|t: int| 0 <= t < cs1.len() implies ((#[trigger] cs1[t]).1.lively()
                        && cs1[t].1.marked_below()) by {
                        if t == j as int {
                            assert(child.lively()) by {
                                if i + 1 == segs@.len() {
                                    lemma_lively_same_children(child, old_child);
                                }
                            }
                        } else {
                            assert(cs1[t].1 == cs0[t].1);
                            assert(old(self).lively());
                        }
                    }
                }
                assert forall|p: Seq<Seq<char>>| #[trigger] self.has_mark(p) == (old(
                    self,
                ).has_mark(p) || p == suffix) by {
                    if p.len() == 0 {
                        assert(self.generate == old(self).generate);
                        assert(p.len() != suffix.len());
                    } else if p[0] == suffix[0] {
                        lemma_mark_unique_child(*self, j as int, p);
                        lemma_mark_unique_child(*old(self), j as int, p);
                        assert(self.has_mark(p) == child.has_mark(p.skip(1)));
                        assert(old(self).has_mark(p) == old_child.has_mark(p.skip(1)));
                        if p.skip(1) == suffix.skip(1) {
                            lemma_cons_eq(p, suffix);
                        }
                        if p == suffix {
                            assert(p.skip(1) == suffix.skip(1));
                        }
                    } else {
                        assert(p != suffix);
                        if self.has_mark(p) {
                            let k = choose|k: int|
                                0 <= k < cs1.len() && (#[trigger] cs1[k]).0@ == p[0] && cs1[k].1.has_mark(p.skip(1));
                            assert(k != j as int);
                            assert(cs1[k] == cs0[k]);
                            assert(old(self).has_mark(p));
                        }
                        if old(self).has_mark(p) {
                            let k = choose|k: int|
                                0 <= k < cs0.len() && (#[trigger] cs0[k]).0@ == p[0] && cs0[k].1.has_mark(p.skip(1));
                            assert(k != j as int);
                            assert(cs1[k] == cs0[k]);
                            assert(self.has_mark(p));
                        }
                    }
                }
            }
        } else {
            proof {
                assert(j == n);
                assert(forall|k: int|
                    0 <= k < n ==> (#[trigger] old(self).children@[k]).0@ != suffix[0]);
            }
            let generate = i + 1 == len;
            let mut child = Namespace::new(generate);
            if i + 1 < len {
                child.insert_from(segs, i + 1);
            }
            proof {
                // in both cases the fresh subtree carries exactly the one suffix
                assert forall|q: Seq<Seq<char>>| #[trigger] child.has_mark(q) == (q
                    == suffix.skip(1)) by {
                    if i + 1 == segs@.len() {
                        assert(suffix.skip(1) =~= Seq::<Seq<char>>::empty());
                        if q.len() == 0 {
                            assert(q =~= suffix.skip(1));
                        } else {
                            assert(q.len() != suffix.skip(1).len());
                        }
                    }
                }
            }
            let cloned = name.clone();
            self.children.push((cloned, child));
            proof {
                let cs0 = old(self).children@;
                let cs1 = self.children@;
                assert(cs1 =~= cs0.push((cloned, child)));
                assert(cs1[n as int].0@ == suffix[0]);
                assert(cs1[n as int].1 == child);
                assert forall|k: int| 0 <= k < cs0.len() implies cs1[k] == cs0[k] by {}
                assert(self.wf()) by {
                    assert forall|a: int, b: int| 0 <= a < b < cs1.len() implies (
                    #[trigger] cs1[a]).0@ != (#[trigger] cs1[b]).0@ by {
                        if b == n as int {
                            assert(cs0[a].0@ != suffix[0]);
                        } else {
                            assert(old(self).wf());
                        }
                    }
                    assert forall|k: int| 0 <= k < cs1.len() implies (#[trigger] cs1[k]).1.wf() by {
                        if k == n as int {
                        } else {
                            assert(cs1[k].1 == cs0[k].1);
                            assert(old(self).wf());
                        }
                    }
                }
                assert(self.lively()) by {
                    assert(child.has_mark(suffix.skip(1)));
                    lemma_mark_marked_below(child, suffix.skip(1));
                    assert forall|t: int| 0 <= t < cs1.len() implies ((#[trigger] cs1[t]).1.lively()
                        && cs1[t].1.marked_below()) by {
                        if t == n as int {
                        } else {
                            assert(cs1[t].1 == cs0[t].1);
                            assert(old(self).lively());
                        }
                    }
                }
                assert forall|p: Seq<Seq<char>>| #[trigger] self.has_mark(p) == (old(
                    self,
                ).has_mark(p) || p == suffix) by {
                    if p.len() == 0 {
                        assert(self.generate == old(self).generate);
                        assert(p.len() != suffix.len());
                    } else if p[0] == suffix[0] {
                        lemma_mark_no_child(*old(self), p);
                        lemma_mark_unique_child(*self, n as int, p);
                        assert(self.has_mark(p) == child.has_mark(p.skip(1)));
                        if p.skip(1) == suffix.skip(1) {
                            lemma_cons_eq(p, suffix);
                        }
                        if p == suffix {
                            assert(p.skip(1) == suffix.skip(1));
                        }
                    } else {
                        assert(p != suffix);
                        if self.has_mark(p) {
                            let k = choose|k: int|
                                0 <= k < cs1.len() && (#[trigger] cs1[k]).0@ == p[0] && cs1[k].1.has_mark(p.skip(1));
                            assert(k != n as int);
                            assert(cs1[k] == cs0[k]);
                            assert(old(self).has_mark(p));
                        }
                        if old(self).has_mark(p) {
                            let k = choose|k: int|
                                0 <= k < cs0.len() && (#[trigger] cs0[k]).0@ == p[0] && cs0[k].1.has_mark(p.skip(1));
                            assert(cs1[k] == cs0[k]);
                            assert(self.has_mark(p));
                        }
                    }
                }
            }
        }
    }
}

/// Two nodes with the same children have the same marks along every
/// non-empty path.
proof fn lemma_mark_same_children(a: Namespace, b: Namespace, p: Seq<Seq<char>>)
    requires
        a.children@ == b.children@,
        p.len() > 0,
    ensures
        a.has_mark(p) == b.has_mark(p),
{
}

/// A marked path somewhere below a node means the node leads to a mark.
proof fn lemma_mark_marked_below(ns: Namespace, p: Seq<Seq<char>>)
    requires
        ns.has_mark(p),
    ensures
        ns.marked_below(),
    decreases p.len(),
{
    if p.len() == 0 {
    } else {
        let k = choose|k: int|
            0 <= k < ns.children@.len() && (#[trigger] ns.children@[k]).0@ == p[0]
                && ns.children@[k].1.has_mark(p.skip(1));
        lemma_mark_marked_below(ns.children@[k].1, p.skip(1));
    }
}

/// Whether every subtree leads to a mark only depends on the children.
proof fn lemma_lively_same_children(a: Namespace, b: Namespace)
    requires
        a.children@ == b.children@,
        b.lively(),
    ensures
        a.lively(),
{
}

/// Well-formedness only depends on the children.
proof fn lemma_wf_same_children(a: Namespace, b: Namespace)
    requires
        a.children@ == b.children@,
        b.wf(),
    ensures
        a.wf(),
{
}

/// When exactly one child carries the first segment of `p`, the mark for
/// `p` is decided inside that child.
proof fn lemma_mark_unique_child(ns: Namespace, j: int, p: Seq<Seq<char>>)
    requires
        p.len() > 0,
        0 <= j < ns.children@.len(),
        ns.children@[j].0@ == p[0],
        forall|k: int|
            0 <= k < ns.children@.len() && k != j ==> (#[trigger] ns.children@[k]).0@ != p[0],
    ensures
        ns.has_mark(p) == ns.children@[j].1.has_mark(p.skip(1)),
{
    if ns.has_mark(p) {
        let k = choose|k: int|
            0 <= k < ns.children@.len() && (#[trigger] ns.children@[k]).0@ == p[0]
                && ns.children@[k].1.has_mark(p.skip(1));
        assert(k == j);
    }
    if ns.children@[j].1.has_mark(p.skip(1)) {
        assert(0 <= j < ns.children@.len() && ns.children@[j].0@ == p[0]
            && ns.children@[j].1.has_mark(p.skip(1)));
        assert(ns.has_mark(p));
    }
}

/// A node with no child named like the first segment of `p` has no mark
/// for `p`.
proof fn lemma_mark_no_child(ns: Namespace, p: Seq<Seq<char>>)
    requires
        p.len() > 0,
        forall|k: int| 0 <= k < ns.children@.len() ==> (#[trigger] ns.children@[k]).0@ != p[0],
    ensures
        !ns.has_mark(p),
{
}

/// Sequences that agree on the head and on the tail are equal.
proof fn lemma_cons_eq(a: Seq<Seq<char>>, b: Seq<Seq<char>>)
    requires
        a.len() > 0,
        b.len() > 0,
        a[0] == b[0],
        a.skip(1) == b.skip(1),
    ensures
        a == b,
{
    assert(a.skip(1).len() == a.len() - 1);
    assert(b.skip(1).len() == b.len() - 1);
    assert forall|k: int| 0 <= k < a.len() implies a[k] == b[k] by {
        if k > 0 {
            assert(a.skip(1)[k - 1] == a[k]);
            assert(b.skip(1)[k - 1] == b[k]);
        }
    }
    assert(a =~= b);
}

/// `root` is the merged prefix tree of exactly the given packages: it is
/// well formed, nothing dangles below it, its own flag is clear, and its
/// marked paths are exactly the valid segmentations of the inputs.
pub open spec fn merged_tree(root: Namespace, packages: Seq<String>) -> bool {
    &&& root.wf()
    &&& root.lively()
    &&& !root.generate
    &&& forall|p: Seq<Seq<char>>| #[trigger] root.has_mark(p) <==> (valid_path(p) && exists|
        k: int,
    |
        0 <= k < packages.len() && dotted(p) == (#[trigger] packages[k])@)
}

/// Some marked path of `root` reads back, in dotted form, exactly as `s`.
pub open spec fn reproduced(root: Namespace, s: Seq<char>) -> bool {
    exists|p: Seq<Seq<char>>| #[trigger] root.has_mark(p) && dotted(p) == s
}

/// Folds every package identifier into one merged tree, keyed at the top
/// level by first-segment name.
///
/// Succeeds exactly when there is at least one package and every package
/// is a well-formed dotted identifier; nothing partial is returned
/// otherwise.  In the resulting tree the marked paths are exactly the
/// valid segmentations of the inputs, and every input is reproduced by
/// the dotted form of some marked path.
pub fn build_tree(packages: &Vec<String>) -> (r: Option<Namespace>)
    ensures
        (r is Some) <==> (packages@.len() > 0 && forall|k: int|
            0 <= k < packages@.len() ==> well_dotted((#[trigger] packages@[k])@)),
        r matches Some(root) ==> merged_tree(root, packages@) && forall|k: int|
            0 <= k < packages@.len() ==> reproduced(root, (#[trigger] packages@[k])@),
{
    if packages.len() == 0 {
        return None;
    }
    let mut root = Namespace::new(false);
    let n = packages.len();
    let mut k: usize = 0;
    while k < n
        invariant
            n == packages@.len(),
            k <= n,
            root.wf(),
            root.lively(),
            !root.generate,
            forall|j: int| 0 <= j < k ==> well_dotted((#[trigger] packages@[j])@),
            forall|p: Seq<Seq<char>>| #[trigger] root.has_mark(p) <==> (valid_path(p) && exists|
            j: int|
                0 <= j < k && dotted(p) == (#[trigger] packages@[j])@),
            forall|j: int| 0 <= j < k ==> reproduced(root, (#[trigger] packages@[j])@),
        decreases n - k,
    {
        let parsed = parse_path(&packages[k]);
        match parsed {
            None => {
                proof {
                    assert(!well_dotted(packages@[k as int]@));
                }
                return None;
            },
            Some(segs) => {
                let ghost views = seg_views(segs@);
                let ghost before = root;
                root.insert_from(&segs, 0);
                proof {
                    assert(views.skip(0) =~= views);
                    assert(valid_path(views));
                    assert(dotted(views) == packages@[k as int]@);
                    assert forall|p: Seq<Seq<char>>| #[trigger] root.has_mark(p) == (valid_path(p)
                        && exists|j: int|
                        0 <= j < k + 1 && dotted(p) == (#[trigger] packages@[j])@) by {
                        if root.has_mark(p) {
                            if before.has_mark(p) {
                                let j = choose|j: int|
                                    0 <= j < k && dotted(p) == (#[trigger] packages@[j])@;
                                assert(0 <= j < k + 1 && dotted(p) == packages@[j]@);
                            } else {
                                assert(p == views);
                                assert(dotted(p) == packages@[k as int]@);
                            }
                        }
                        if valid_path(p) && exists|j: int|
                            0 <= j < k + 1 && dotted(p) == (#[trigger] packages@[j])@ {
                            let j = choose|j: int|
                                0 <= j < k + 1 && dotted(p) == (#[trigger] packages@[j])@;
                            if j < k {
                                assert(before.has_mark(p));
                            } else {
                                assert(dotted(p) == dotted(views));
                                lemma_dotted_injective(p, views);
                                assert(p == views);
                            }
                            assert(root.has_mark(p));
                        }
                    }
                    assert forall|j: int| 0 <= j < k + 1 implies reproduced(
                        root,
                        (#[trigger] packages@[j])@,
                    ) by {
                        if j < k {
                            assert(reproduced(before, packages@[j]@));
                            let p = choose|p: Seq<Seq<char>>|
                                #[trigger] before.has_mark(p) && dotted(p) == packages@[j]@;
                            assert(root.has_mark(p));
                        } else {
                            assert(root.has_mark(views));
                        }
                    }
                }
            },
        }
        k = k + 1;
    }
    Some(root)
}

} // verus!
