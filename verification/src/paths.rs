//! Paths of visited nodes: in a tree named as a file system names it, every
//! node is visited under a path of its own.

use vstd::prelude::*;
use crate::entry::Entry;
use crate::ordering::lemma_survivors;
use crate::walk::child_path;
use crate::walk::survivors;
use crate::walk::visits;
use crate::walk::visits_among;
use crate::walk::Path2Md;
use crate::walk::Visit;

verus! {

/// A name as a file system gives it: not empty and without a `/`.
pub open spec fn plain_name(n: Seq<char>) -> bool {
    n.len() > 0 && forall|k: int| 0 <= k < n.len() ==> n[k] != '/'
}

/// The entries of one directory have plain names, no two the same, and the
/// same holds below each of them.
pub open spec fn well_named_entries(children: Seq<Entry>) -> bool
    decreases children,
{
    &&& forall|i: int|
        0 <= i < children.len() ==> plain_name((#[trigger] children[i]).label()) && well_named(
            children[i],
        )
    &&& forall|i: int, j: int|
        0 <= i < children.len() && 0 <= j < children.len() && i != j ==> (
        #[trigger] children[i]).label() != (#[trigger] children[j]).label()
}

/// A tree named as a file system names it. The root's own name is free.
pub open spec fn well_named(e: Entry) -> bool
    decreases e,
{
    match e {
        Entry::Directory { children, .. } => well_named_entries(children@),
        _ => true,
    }
}

/// `x` is the path of a node strictly below the node at `p`.
pub open spec fn below(p: Seq<char>, x: Seq<char>) -> bool {
    if p.len() == 0 {
        x.len() > 0
    } else {
        x.len() > p.len() && x.take(p.len() as int) == p && x[p.len() as int] == '/'
    }
}

/// `x` is the path of the node at `p` or of a node below it.
pub open spec fn at_or_below(p: Seq<char>, x: Seq<char>) -> bool {
    x == p || below(p, x)
}

/// `x` lies at or below one of the first `upto` entries of the visiting
/// order of the directory at `parent`.
pub open spec fn in_entries(
    children: Seq<Entry>,
    order: Seq<usize>,
    parent: Seq<char>,
    upto: nat,
    x: Seq<char>,
) -> bool {
    exists|k: int|
        0 <= k < upto && k < order.len() && at_or_below(
            child_path(parent, children[#[trigger] order[k] as int].label()),
            x,
        )
}

/// What lies at or below an entry of a directory lies below the directory.
pub proof fn lemma_below_parent(p: Seq<char>, n: Seq<char>, x: Seq<char>)
    requires
        plain_name(n),
        at_or_below(child_path(p, n), x),
    ensures
        below(p, x),
        x != p,
{
    let c = child_path(p, n);
    if p.len() > 0 {
        assert(c.len() == p.len() + 1 + n.len());
        assert(x.take(c.len() as int) == c) by {
            if x == c {
                assert(x.take(c.len() as int) =~= x);
            }
        }
        assert forall|k: int| 0 <= k < c.len() implies x[k] == c[k] by {
            assert(x.take(c.len() as int)[k] == x[k]);
        }
        assert(c[p.len() as int] == '/');
        assert(x.take(p.len() as int) =~= p) by {
            assert forall|k: int| 0 <= k < p.len() implies x.take(p.len() as int)[k] == p[k] by {
                assert(c[k] == p[k]);
            }
        }
    }
}

/// Two entries of one directory with different names share no path at or
/// below them.
pub proof fn lemma_siblings_apart(
    p: Seq<char>,
    n1: Seq<char>,
    n2: Seq<char>,
    x: Seq<char>,
    y: Seq<char>,
)
    requires
        plain_name(n1),
        plain_name(n2),
        n1 != n2,
        at_or_below(child_path(p, n1), x),
        at_or_below(child_path(p, n2), y),
    ensures
        x != y,
{
    let c1 = child_path(p, n1);
    let c2 = child_path(p, n2);
    let o: int = if p.len() == 0 {
        0int
    } else {
        p.len() as int + 1
    };
    assert(c1.len() == o + n1.len() && c2.len() == o + n2.len());
    assert forall|k: int| 0 <= k < n1.len() implies c1[o + k] == n1[k] by {}
    assert forall|k: int| 0 <= k < n2.len() implies c2[o + k] == n2[k] by {}
    if x == y {
        assert(x.take(c1.len() as int) == c1) by {
            if x == c1 {
                assert(x.take(c1.len() as int) =~= x);
            }
        }
        assert(y.take(c2.len() as int) == c2) by {
            if y == c2 {
                assert(y.take(c2.len() as int) =~= y);
            }
        }
        assert forall|k: int| 0 <= k < c1.len() implies x[k] == c1[k] by {
            assert(x.take(c1.len() as int)[k] == x[k]);
        }
        assert forall|k: int| 0 <= k < c2.len() implies x[k] == c2[k] by {
            assert(y.take(c2.len() as int)[k] == y[k]);
        }
        if n1.len() == n2.len() {
            assert(n1 =~= n2) by {
                assert forall|k: int| 0 <= k < n1.len() implies n1[k] == n2[k] by {
                    assert(c1[o + k] == x[o + k]);
                    assert(c2[o + k] == x[o + k]);
                }
            }
        } else if n1.len() < n2.len() {
            assert(x != c1);
            assert(x[c1.len() as int] == '/');
            assert(c2[o + n1.len()] == n2[n1.len() as int]);
        } else {
            assert(y != c2);
            assert(y[c2.len() as int] == '/');
            assert(c1[o + n2.len()] == n1[n2.len() as int]);
        }
    }
}

/// In a well-named tree, a successful walk visits every node under a path
/// of its own: all visited paths lie at or below the start, and no two of
/// them are the same. So no file's header appears twice.
pub proof fn lemma_visited_paths_distinct(
    cfg: Path2Md,
    e: Entry,
    path: Seq<char>,
    depth: nat,
    is_last: bool,
)
    requires
        well_named(e),
        visits(cfg, e, path, depth, is_last) is Ok,
    ensures
        ({
            let seen = visits(cfg, e, path, depth, is_last)->Ok_0;
            &&& forall|j: int| 0 <= j < seen.len() ==> at_or_below(path, (#[trigger] seen[j]).path)
            &&& forall|i: int, j: int|
                0 <= i < j < seen.len() ==> (#[trigger] seen[i]).path != (#[trigger] seen[j]).path
        }),
    decreases e, 0nat,
{
    let seen = visits(cfg, e, path, depth, is_last)->Ok_0;
    if !cfg.ignores(path) {
        match e {
            Entry::Directory { children, .. } => {
                let order = survivors(cfg, children@, path, children@.len() as int);
                assert(children@.len() == children.len());
                lemma_survivors(cfg, children@, path, children@.len() as int);
                lemma_entry_paths_distinct(cfg, children@, order, path, depth + 1, order.len());
                let sub = visits_among(cfg, children@, order, path, depth + 1, order.len())->Ok_0;
                assert(seen[0].path == path);
                assert forall|j: int| 1 <= j < seen.len() implies below(
                    path,
                    (#[trigger] seen[j]).path,
                ) && seen[j].path != path by {
                    assert(seen[j] == sub[j - 1]);
                    let x = sub[j - 1].path;
                    assert(in_entries(children@, order, path, order.len(), x));
                    let k = choose|k: int|
                        0 <= k < order.len() && at_or_below(
                            child_path(path, children@[#[trigger] order[k] as int].label()),
                            x,
                        );
                    lemma_below_parent(path, children@[order[k] as int].label(), x);
                }
                assert forall|i: int, j: int| 0 <= i < j < seen.len() implies (
                #[trigger] seen[i]).path != (#[trigger] seen[j]).path by {
                    if i > 0 {
                        assert(seen[i] == sub[i - 1]);
                        assert(seen[j] == sub[j - 1]);
                    }
                }
            },
            _ => {},
        }
    }
}

/// The same of the walks of the first `upto` surviving entries of a
/// directory: every visited path lies at or below one of those entries.
pub proof fn lemma_entry_paths_distinct(
    cfg: Path2Md,
    children: Seq<Entry>,
    order: Seq<usize>,
    parent: Seq<char>,
    depth: nat,
    upto: nat,
)
    requires
        upto <= order.len(),
        well_named_entries(children),
        forall|k: int| 0 <= k < order.len() ==> #[trigger] order[k] < children.len(),
        forall|a: int, b: int|
            0 <= a < b < order.len() ==> #[trigger] order[a] != #[trigger] order[b],
        visits_among(cfg, children, order, parent, depth, upto) is Ok,
    ensures
        ({
            let seen = visits_among(cfg, children, order, parent, depth, upto)->Ok_0;
            &&& forall|j: int|
                0 <= j < seen.len() ==> in_entries(
                    children,
                    order,
                    parent,
                    upto,
                    (#[trigger] seen[j]).path,
                )
            &&& forall|i: int, j: int|
                0 <= i < j < seen.len() ==> (#[trigger] seen[i]).path != (#[trigger] seen[j]).path
        }),
    decreases children, upto,
{
    if upto > 0 {
        let before = (upto - 1) as nat;
        let seen = visits_among(cfg, children, order, parent, depth, upto)->Ok_0;
        let earlier = visits_among(cfg, children, order, parent, depth, before)->Ok_0;
        let i_last = order[upto - 1];
        let child = children[i_last as int];
        let at = child_path(parent, child.label());
        let next = visits(cfg, child, at, depth, upto == order.len())->Ok_0;
        lemma_entry_paths_distinct(cfg, children, order, parent, depth, before);
        lemma_visited_paths_distinct(cfg, child, at, depth, upto == order.len());
        assert(seen == earlier + next);
        assert forall|j: int| 0 <= j < seen.len() implies in_entries(
            children,
            order,
            parent,
            upto,
            (#[trigger] seen[j]).path,
        ) by {
            if j < earlier.len() {
                assert(seen[j] == earlier[j]);
                assert(in_entries(children, order, parent, before, earlier[j].path));
                let k = choose|k: int|
                    0 <= k < before && k < order.len() && at_or_below(
                        child_path(parent, children[#[trigger] order[k] as int].label()),
                        earlier[j].path,
                    );
            } else {
                assert(seen[j] == next[j - earlier.len()]);
                assert(children[order[upto - 1] as int] == child);
            }
        }
        assert forall|i: int, j: int| 0 <= i < j < seen.len() implies (#[trigger] seen[i]).path != (
        #[trigger] seen[j]).path by {
            if j < earlier.len() {
                assert(seen[i] == earlier[i] && seen[j] == earlier[j]);
            } else if i >= earlier.len() {
                assert(seen[i] == next[i - earlier.len()]);
                assert(seen[j] == next[j - earlier.len()]);
            } else {
                assert(seen[i] == earlier[i]);
                assert(seen[j] == next[j - earlier.len()]);
                assert(in_entries(children, order, parent, before, earlier[i].path));
                let k = choose|k: int|
                    0 <= k < before && k < order.len() && at_or_below(
                        child_path(parent, children[#[trigger] order[k] as int].label()),
                        earlier[i].path,
                    );
                assert(order[k] != order[upto - 1]);
                let other = children[order[k] as int];
                assert(other.label() != child.label());
                lemma_siblings_apart(
                    parent,
                    other.label(),
                    child.label(),
                    earlier[i].path,
                    next[j - earlier.len()].path,
                );
            }
        }
    }
}

} // verus!
