//! What holds of the visiting order: it is a strict total order on entries
//! with distinct names, and the surviving entries of a directory are exactly
//! the entries that no rule excludes, each once, in that order.

use vstd::prelude::*;
use vstd::utf8::encode_utf8;
use crate::entry::bytes_before;
use crate::entry::comes_before;
use crate::entry::Entry;
use crate::walk::child_path;
use crate::walk::slot;
use crate::walk::survivors;
use crate::walk::Path2Md;

verus! {

/// Of two byte strings at most one comes before the other.
pub proof fn lemma_bytes_before_asymmetric(a: Seq<u8>, b: Seq<u8>, i: int)
    requires
        0 <= i,
        bytes_before(a, b, i),
    ensures
        !bytes_before(b, a, i),
    decreases a.len() - i,
{
    if i < a.len() && i < b.len() && a[i] == b[i] {
        lemma_bytes_before_asymmetric(a, b, i + 1);
    }
}

/// The order of byte strings is transitive.
pub proof fn lemma_bytes_before_transitive(a: Seq<u8>, b: Seq<u8>, c: Seq<u8>, i: int)
    requires
        0 <= i,
        bytes_before(a, b, i),
        bytes_before(b, c, i),
    ensures
        bytes_before(a, c, i),
    decreases a.len() - i,
{
    if i < a.len() && i < b.len() && i < c.len() && a[i] == b[i] && b[i] == c[i] {
        lemma_bytes_before_transitive(a, b, c, i + 1);
    }
}

/// Two different byte strings that agree before index `i` are ordered one
/// way or the other.
pub proof fn lemma_bytes_before_total(a: Seq<u8>, b: Seq<u8>, i: int)
    requires
        0 <= i <= a.len(),
        i <= b.len(),
        a.take(i) == b.take(i),
        a != b,
    ensures
        bytes_before(a, b, i) || bytes_before(b, a, i),
    decreases a.len() - i,
{
    if i < a.len() && i < b.len() {
        if a[i] == b[i] {
            assert(a.take(i + 1) =~= a.take(i).push(a[i]));
            assert(b.take(i + 1) =~= b.take(i).push(b[i]));
            lemma_bytes_before_total(a, b, i + 1);
        }
    } else if i >= a.len() && i >= b.len() {
        assert(a.take(i) =~= a);
        assert(b.take(i) =~= b);
    }
}

/// Of two entries at most one is visited before the other.
pub proof fn lemma_comes_before_asymmetric(a: Entry, b: Entry)
    requires
        comes_before(a, b),
    ensures
        !comes_before(b, a),
{
    if a.is_dir() == b.is_dir() {
        lemma_bytes_before_asymmetric(encode_utf8(a.label()), encode_utf8(b.label()), 0);
    }
}

/// The visiting order is transitive.
pub proof fn lemma_comes_before_transitive(a: Entry, b: Entry, c: Entry)
    requires
        comes_before(a, b),
        comes_before(b, c),
    ensures
        comes_before(a, c),
{
    if a.is_dir() == b.is_dir() && b.is_dir() == c.is_dir() {
        lemma_bytes_before_transitive(
            encode_utf8(a.label()),
            encode_utf8(b.label()),
            encode_utf8(c.label()),
            0,
        );
    }
}

/// The visiting order decides between any two entries that differ in kind
/// or in the bytes of their names: it never depends on the order in which a
/// directory was listed.
pub proof fn lemma_comes_before_total(a: Entry, b: Entry)
    requires
        a.is_dir() != b.is_dir() || encode_utf8(a.label()) != encode_utf8(b.label()),
    ensures
        comes_before(a, b) || comes_before(b, a),
{
    if a.is_dir() == b.is_dir() {
        let x = encode_utf8(a.label());
        let y = encode_utf8(b.label());
        assert(x.take(0) =~= y.take(0));
        lemma_bytes_before_total(x, y, 0);
    }
}

/// Where an entry joins the order: after every index whose entry it does not
/// come before, and directly before one that it comes before, if any.
pub proof fn lemma_slot(children: Seq<Entry>, order: Seq<usize>, e: Entry, k: int)
    requires
        0 <= k <= order.len(),
        forall|j: int| 0 <= j < order.len() ==> #[trigger] order[j] < children.len(),
    ensures
        k <= slot(children, order, e, k) <= order.len(),
        forall|j: int|
            k <= j < slot(children, order, e, k) ==> !comes_before(
                e,
                children[#[trigger] order[j] as int],
            ),
        slot(children, order, e, k) < order.len() ==> comes_before(
            e,
            children[order[slot(children, order, e, k)] as int],
        ),
    decreases order.len() - k,
{
    if k < order.len() && !comes_before(e, children[order[k] as int]) {
        lemma_slot(children, order, e, k + 1);
    }
}

/// The surviving entries of a directory, taken among its first `n` entries:
/// every index is one of those `n`, no rule excludes its entry, no index
/// occurs twice, every entry that no rule excludes is there, and no entry
/// stands after one that it comes before.
pub proof fn lemma_survivors(cfg: Path2Md, children: Seq<Entry>, parent: Seq<char>, n: int)
    requires
        0 <= n <= children.len() <= usize::MAX,
    ensures
        ({
            let order = survivors(cfg, children, parent, n);
            &&& forall|k: int| 0 <= k < order.len() ==> #[trigger] order[k] < n
            &&& forall|k: int|
                0 <= k < order.len() ==> !cfg.ignores(
                    child_path(parent, children[#[trigger] order[k] as int].label()),
                )
            &&& forall|a: int, b: int|
                0 <= a < b < order.len() ==> #[trigger] order[a] != #[trigger] order[b]
            &&& forall|i: int|
                0 <= i < n && !cfg.ignores(child_path(parent, (#[trigger] children[i]).label()))
                    ==> exists|k: int| 0 <= k < order.len() && order[k] == i
            &&& forall|a: int, b: int|
                0 <= a < b < order.len() ==> !comes_before(
                    children[#[trigger] order[b] as int],
                    children[#[trigger] order[a] as int],
                )
        }),
    decreases n,
{
    if n > 0 {
        lemma_survivors(cfg, children, parent, n - 1);
        let prev = survivors(cfg, children, parent, n - 1);
        let order = survivors(cfg, children, parent, n);
        let e = children[n - 1];
        if cfg.ignores(child_path(parent, e.label())) {
            assert(order == prev);
        } else {
            let p = slot(children, prev, e, 0);
            lemma_slot(children, prev, e, 0);
            assert(order == prev.insert(p, (n - 1) as usize));
            assert(order.len() == prev.len() + 1);
            assert forall|k: int| 0 <= k < order.len() implies #[trigger] order[k] < n
                && !cfg.ignores(child_path(parent, children[order[k] as int].label())) by {
                if k < p {
                    assert(order[k] == prev[k]);
                } else if k > p {
                    assert(order[k] == prev[k - 1]);
                }
            }
            assert forall|a: int, b: int| 0 <= a < b < order.len() implies #[trigger] order[a]
                != #[trigger] order[b] && !comes_before(
                children[order[b] as int],
                children[order[a] as int],
            ) by {
                let ia = if a < p {
                    a
                } else {
                    a - 1
                };
                let ib = if b < p {
                    b
                } else {
                    b - 1
                };
                if a != p {
                    assert(order[a] == prev[ia]);
                }
                if b != p {
                    assert(order[b] == prev[ib]);
                }
                if a == p {
                    assert(order[a] == (n - 1) as usize);
                    assert(comes_before(e, children[prev[p] as int]));
                    if comes_before(children[prev[ib] as int], e) {
                        lemma_comes_before_transitive(
                            children[prev[ib] as int],
                            e,
                            children[prev[p] as int],
                        );
                        if ib == p {
                            lemma_comes_before_asymmetric(e, children[prev[p] as int]);
                        }
                    }
                } else if b == p {
                    assert(order[b] == (n - 1) as usize);
                    assert(!comes_before(e, children[prev[ia] as int]));
                }
            }
            assert forall|i: int|
                0 <= i < n && !cfg.ignores(
                    child_path(parent, (#[trigger] children[i]).label()),
                ) implies exists|k: int| 0 <= k < order.len() && order[k] == i by {
                if i == n - 1 {
                    assert(order[p] == i);
                } else {
                    let k0 = choose|k: int| 0 <= k < prev.len() && prev[k] == i;
                    if k0 < p {
                        assert(order[k0] == i);
                    } else {
                        assert(order[k0 + 1] == i);
                    }
                }
            }
        }
    }
}

} // verus!
