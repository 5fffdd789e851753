//! Emission of nested declarations from a namespace tree.
use vstd::prelude::*;
use vstd::string::StringExecFns;

use crate::paths::{dotted, well_dotted};
use crate::tree::{build_tree, merged_tree, reproduced, Namespace};

verus! {

/// One emitted declaration: either the inclusion marker that splices in
/// the externally generated code of one package, or a named scope with
/// nested declarations.
#[derive(Debug)]
pub enum Decl {
    /// The inclusion marker, carrying the full dotted package identifier.
    Marker { path: String },
    /// A named scope and the declarations nested in it.
    Module { name: String, items: Vec<Decl> },
}

/// A marker for the package identifier `q` occurs somewhere in `d`.
pub open spec fn has_marker(d: Decl, q: Seq<char>) -> bool
    decreases d,
{
    match d {
        Decl::Marker { path } => path@ == q,
        Decl::Module { name, items } => exists|k: int|
            0 <= k < items@.len() && has_marker(#[trigger] items@[k], q),
    }
}

/// A marker for `q` occurs somewhere in the declaration list `ds`.
pub open spec fn seq_has_marker(ds: Seq<Decl>, q: Seq<char>) -> bool {
    exists|k: int| 0 <= k < ds.len() && has_marker(#[trigger] ds[k], q)
}

/// The dotted identifier reached from the accumulated path `base` by
/// descending along the further segments `p`.
pub open spec fn dotted_from(base: Seq<char>, p: Seq<Seq<char>>) -> Seq<char> {
    if p.len() == 0 {
        base
    } else {
        base + seq!['.'] + dotted(p)
    }
}

/// `d` is the declaration of the subtree `ns`, whose scope is named
/// `name` and reached by the accumulated dotted path `path`: a named
/// scope holding first the inclusion marker, present exactly when the
/// node is marked, then one nested scope per child, in order.
pub open spec fn emits(d: Decl, path: Seq<char>, name: Seq<char>, ns: Namespace) -> bool
    decreases ns,
{
    match d {
        Decl::Marker { .. } => false,
        Decl::Module { name: n, items } => {
            let off: int = if ns.generate {
                1int
            } else {
                0int
            };
            &&& n@ == name
            &&& items@.len() == ns.children@.len() + off
            &&& ns.generate ==> (items@[0] matches Decl::Marker { path: ip } && ip@ == path)
            &&& forall|k: int|
                0 <= k < ns.children@.len() ==> emits(
                    items@[k + off],
                    path + seq!['.'] + (#[trigger] ns.children@[k]).0@,
                    ns.children@[k].0@,
                    ns.children@[k].1,
                )
        },
    }
}

/// Descending one segment extends the accumulated dotted path by '.' and
/// that segment.
proof fn lemma_dotted_from_cons(base: Seq<char>, c: Seq<char>, p: Seq<Seq<char>>)
    ensures
        dotted_from(base, seq![c] + p) == dotted_from(base + seq!['.'] + c, p),
{
    let cp = seq![c] + p;
    if p.len() == 0 {
        assert(cp =~= seq![c]);
        assert(dotted(cp) == c);
    } else {
        assert(cp.len() > 1);
        assert(cp[0] == c);
        assert(cp.skip(1) =~= p);
        assert(dotted(cp) == c + seq!['.'] + dotted(p));
        assert(base + seq!['.'] + (c + seq!['.'] + dotted(p)) =~= (base + seq!['.'] + c)
            + seq!['.'] + dotted(p));
    }
}

/// A path is its own head segment followed by its tail.
proof fn lemma_dotted_head(c: Seq<char>, p: Seq<Seq<char>>)
    ensures
        dotted(seq![c] + p) == dotted_from(c, p),
{
    let cp = seq![c] + p;
    if p.len() == 0 {
        assert(cp =~= seq![c]);
    } else {
        assert(cp.len() > 1);
        assert(cp[0] == c);
        assert(cp.skip(1) =~= p);
    }
}

/// `ds` lists the declarations of the top-level scopes of `root`: one
/// scope per top-level child, in order.
pub open spec fn decls_of(ds: Seq<Decl>, root: Namespace) -> bool {
    &&& ds.len() == root.children@.len()
    &&& forall|t: int|
        0 <= t < ds.len() ==> emits(
            #[trigger] ds[t],
            root.children@[t].0@,
            root.children@[t].0@,
            root.children@[t].1,
        )
}

/// The markers occurring in an emitted declaration are exactly the
/// dotted identifiers of the marked paths of the emitted subtree.
pub proof fn lemma_emits_markers(d: Decl, path: Seq<char>, name: Seq<char>, ns: Namespace)
    requires
        emits(d, path, name, ns),
    ensures
        forall|q: Seq<char>| #[trigger] has_marker(d, q) ==> exists|p: Seq<Seq<char>>|
            #[trigger] ns.has_mark(p) && q == dotted_from(path, p),
        forall|p: Seq<Seq<char>>| #[trigger] ns.has_mark(p) ==> has_marker(
            d,
            dotted_from(path, p),
        ),
    decreases ns,
{
    match d {
        Decl::Marker { .. } => {
            assert(false);
        },
        Decl::Module { name: n, items } => {
            let off: int = if ns.generate {
                1int
            } else {
                0int
            };
            assert forall|q: Seq<char>| #[trigger] has_marker(d, q) implies exists|
                p: Seq<Seq<char>>,
            | #[trigger] ns.has_mark(p) && q == dotted_from(path, p) by {
                let k = choose|k: int| 0 <= k < items@.len() && has_marker(#[trigger] items@[k], q);
                if ns.generate && k == 0 {
                    assert(q == path);
                    let p = Seq::<Seq<char>>::empty();
                    assert(ns.has_mark(p));
                    assert(q == dotted_from(path, p));
                } else {
                    let c = k - off;
                    assert(0 <= c < ns.children@.len());
                    let cname = ns.children@[c].0@;
                    let child = ns.children@[c].1;
                    let cpath = path + seq!['.'] + cname;
                    assert(emits(items@[k], cpath, cname, child));
                    lemma_emits_markers(items@[k], cpath, cname, child);
                    let p2 = choose|p2: Seq<Seq<char>>|
                        #[trigger] child.has_mark(p2) && q == dotted_from(cpath, p2);
                    let p = seq![cname] + p2;
                    assert(p[0] == cname);
                    assert(p.skip(1) =~= p2);
                    assert(ns.has_mark(p));
                    lemma_dotted_from_cons(path, cname, p2);
                    assert(q == dotted_from(path, p));
                }
            }
            assert forall|p: Seq<Seq<char>>| #[trigger] ns.has_mark(p) implies has_marker(
                d,
                dotted_from(path, p),
            ) by {
                if p.len() == 0 {
                    assert(ns.generate);
                    assert(has_marker(items@[0], path));
                    assert(has_marker(d, dotted_from(path, p)));
                } else {
                    let c = choose|c: int|
                        0 <= c < ns.children@.len() && (#[trigger] ns.children@[c]).0@ == p[0]
                            && ns.children@[c].1.has_mark(p.skip(1));
                    let cname = ns.children@[c].0@;
                    let child = ns.children@[c].1;
                    let cpath = path + seq!['.'] + cname;
                    assert(emits(items@[c + off], cpath, cname, child));
                    lemma_emits_markers(items@[c + off], cpath, cname, child);
                    assert(has_marker(items@[c + off], dotted_from(cpath, p.skip(1))));
                    lemma_dotted_from_cons(path, cname, p.skip(1));
                    assert(seq![cname] + p.skip(1) =~= p);
                    assert(has_marker(d, dotted_from(path, p)));
                }
            }
        },
    }
}

/// Emits the declaration of one subtree: a scope named `name`, reached
/// by the accumulated dotted path `path`, holding the inclusion marker
/// exactly when the node is marked, then one nested scope per child.
pub fn build_namespace_decl(path: String, name: &str, namespace: &Namespace) -> (d: Decl)
    ensures
        emits(d, path@, name@, *namespace),
    decreases *namespace,
{
    let mut items: Vec<Decl> = Vec::new();
    if namespace.generate {
        items.push(Decl::Marker { path: path.clone() });
    }
    let ghost off: int = if namespace.generate {
        1int
    } else {
        0int
    };
    let n = namespace.children.len();
    let mut k: usize = 0;
    while k < n
        invariant
            n == namespace.children@.len(),
            k <= n,
            items@.len() == k + off,
            off == if namespace.generate {
                1int
            } else {
                0int
            },
            namespace.generate ==> (items@[0] matches Decl::Marker { path: ip } && ip@ == path@),
            forall|t: int|
                0 <= t < k ==> emits(
                    #[trigger] items@[t + off],
                    path@ + seq!['.'] + (#[trigger] namespace.children@[t]).0@,
                    namespace.children@[t].0@,
                    namespace.children@[t].1,
                ),
        decreases n - k,
    {
        let pair = &namespace.children[k];
        let mut child_path = path.clone();
        child_path.append(".");
        child_path.append(pair.0.as_str());
        proof {
            reveal_strlit(".");
            assert("."@ =~= seq!['.']);
            assert(child_path@ == path@ + seq!['.'] + pair.0@);
        }
        let d = build_namespace_decl(child_path, pair.0.as_str(), &pair.1);
        items.push(d);
        k = k + 1;
    }
    let scope_name = name.to_owned();
    Decl::Module { name: scope_name, items }
}

/// Runs the whole pipeline: parses every package identifier, folds them
/// into the merged tree, and emits one top-level scope per distinct
/// first segment.
///
/// Succeeds exactly when there is at least one package and every package
/// is well formed.  The emitted declarations carry an inclusion marker
/// for a dotted identifier exactly when that identifier is one of the
/// requested packages.
pub fn namespaced_decls(packages: &Vec<String>) -> (r: Option<Vec<Decl>>)
    ensures
        (r is Some) <==> (packages@.len() > 0 && forall|k: int|
            0 <= k < packages@.len() ==> well_dotted((#[trigger] packages@[k])@)),
        r matches Some(ds) ==> {
            &&& exists|root: Namespace| #[trigger] merged_tree(root, packages@) && decls_of(
                ds@,
                root,
            )
            &&& forall|k: int| 0 <= k < ds@.len() ==> (#[trigger] ds@[k]) is Module
            &&& forall|q: Seq<char>| #[trigger] seq_has_marker(ds@, q) <==> exists|k: int|
                0 <= k < packages@.len() && q == (#[trigger] packages@[k])@
        },
{
    let root = match build_tree(packages) {
        None => {
            return None;
        },
        Some(root) => root,
    };
    let mut ds: Vec<Decl> = Vec::new();
    let n = root.children.len();
    let mut k: usize = 0;
    while k < n
        invariant
            n == root.children@.len(),
            k <= n,
            ds@.len() == k,
            forall|t: int|
                0 <= t < k ==> emits(
                    #[trigger] ds@[t],
                    (#[trigger] root.children@[t]).0@,
                    root.children@[t].0@,
                    root.children@[t].1,
                ),
        decreases n - k,
    {
        let pair = &root.children[k];
        let d = build_namespace_decl(pair.0.clone(), pair.0.as_str(), &pair.1);
        ds.push(d);
        k = k + 1;
    }
    proof {
        assert(merged_tree(root, packages@) && decls_of(ds@, root));
        assert forall|t: int| 0 <= t < ds@.len() implies (#[trigger] ds@[t]) is Module by {
            assert(emits(ds@[t], root.children@[t].0@, root.children@[t].0@, root.children@[t].1));
            if !(ds@[t] is Module) {
                assert(false);
            }
        }
        assert forall|q: Seq<char>| #[trigger] seq_has_marker(ds@, q) == (exists|k: int|
            0 <= k < packages@.len() && q == (#[trigger] packages@[k])@) by {
            if seq_has_marker(ds@, q) {
                let t = choose|t: int| 0 <= t < ds@.len() && has_marker(#[trigger] ds@[t], q);
                let cname = root.children@[t].0@;
                let child = root.children@[t].1;
                lemma_emits_markers(ds@[t], cname, cname, child);
                let p2 = choose|p2: Seq<Seq<char>>|
                    #[trigger] child.has_mark(p2) && q == dotted_from(cname, p2);
                let pp = seq![cname] + p2;
                assert(pp[0] == cname);
                assert(pp.skip(1) =~= p2);
                assert(root.has_mark(pp));
                lemma_dotted_head(cname, p2);
                assert(dotted(pp) == q);
            }
            if exists|k: int| 0 <= k < packages@.len() && q == (#[trigger] packages@[k])@ {
                let j = choose|j: int| 0 <= j < packages@.len() && q == (#[trigger] packages@[j])@;
                assert(reproduced(root, packages@[j]@));
                let pp = choose|pp: Seq<Seq<char>>|
                    #[trigger] root.has_mark(pp) && dotted(pp) == packages@[j]@;
                assert(pp.len() > 0) by {
                    if pp.len() == 0 {
                        assert(!root.generate);
                    }
                }
                let t = choose|t: int|
                    0 <= t < root.children@.len() && (#[trigger] root.children@[t]).0@ == pp[0]
                        && root.children@[t].1.has_mark(pp.skip(1));
                lemma_emits_markers(ds@[t], pp[0], pp[0], root.children@[t].1);
                assert(has_marker(ds@[t], dotted_from(pp[0], pp.skip(1))));
                lemma_dotted_head(pp[0], pp.skip(1));
                assert(seq![pp[0]] + pp.skip(1) =~= pp);
                assert(has_marker(ds@[t], q));
                assert(seq_has_marker(ds@, q));
            }
        }
    }
    Some(ds)
}

} // verus!
