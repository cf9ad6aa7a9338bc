//! The walk: which nodes of a tree are visited, in which order, and which
//! node stops it.

use vstd::prelude::*;
use vstd::string::*;
use crate::entry::Entry;
use crate::entry::comes_before;
use crate::entry::sorts_before;
use crate::ignore::all_portable;
use crate::ignore::excluded;
use crate::ignore::portable;
use crate::ignore::is_excluded;

verus! {

/// What to render and how: the root's display name, the exclusion rules and
/// whether only the outline is wanted.
#[derive(Debug)]
pub struct Path2Md {
    pub root: String,
    pub ignore: Option<Vec<String>>,
    pub structure_only: bool,
}

/// One visited node, with what rendering needs to know of it.
#[derive(Debug)]
pub struct WalkNode<'a> {
    /// Path relative to the root, segments joined by `/`; empty for the root.
    pub path: String,
    /// Number of segments in `path`.
    pub depth: usize,
    /// Whether the node is the last of its surviving siblings.
    pub is_last: bool,
    /// The node itself.
    pub entry: &'a Entry,
}

/// The mathematical value of a [`WalkNode`].
pub struct Visit {
    pub path: Seq<char>,
    pub depth: nat,
    pub is_last: bool,
    pub entry: Entry,
}

impl<'a> View for WalkNode<'a> {
    type V = Visit;

    open spec fn view(&self) -> Visit {
        Visit {
            path: self.path@,
            depth: self.depth as nat,
            is_last: self.is_last,
            entry: *self.entry,
        }
    }
}

/// The visits that a list of nodes stands for.
pub open spec fn visit_views(nodes: Seq<WalkNode>) -> Seq<Visit> {
    Seq::new(nodes.len(), |i: int| nodes[i]@)
}

/// Why a walk stopped. Each variant names the offending path: relative to
/// the root, or the root's display name where the root itself is at fault.
#[derive(Debug)]
pub enum WalkPathError {
    /// A directory's listing could not be read: `(cause, path)`.
    FailedToReadDir(String, String),
    /// The node is neither a file nor a directory.
    UnsupportedPathType(String),
}

/// The mathematical value of a [`WalkPathError`].
pub enum WalkFailure {
    FailedToReadDir(Seq<char>, Seq<char>),
    UnsupportedPathType(Seq<char>),
}

impl View for WalkPathError {
    type V = WalkFailure;

    open spec fn view(&self) -> WalkFailure {
        match self {
            WalkPathError::FailedToReadDir(cause, path) => WalkFailure::FailedToReadDir(
                cause@,
                path@,
            ),
            WalkPathError::UnsupportedPathType(path) => WalkFailure::UnsupportedPathType(path@),
        }
    }
}

/// The path of an entry called `name` inside the directory at `parent`.
pub open spec fn child_path(parent: Seq<char>, name: Seq<char>) -> Seq<char> {
    if parent.len() == 0 {
        name
    } else {
        parent + seq!['/'] + name
    }
}

/// Position at which `e` joins the ordered indices `order`: before the first
/// one, from `k` on, whose entry comes after `e`.
pub open spec fn slot(children: Seq<Entry>, order: Seq<usize>, e: Entry, k: int) -> int
    decreases order.len() - k,
{
    if k < 0 || k >= order.len() {
        order.len() as int
    } else if order[k] < children.len() && comes_before(e, children[order[k] as int]) {
        k
    } else {
        slot(children, order, e, k + 1)
    }
}

/// Indices of the first `n` entries of a directory that are not excluded,
/// in visiting order. Entries that compare equal keep their given order.
pub open spec fn survivors(cfg: Path2Md, children: Seq<Entry>, parent: Seq<char>, n: int) -> Seq<
    usize,
>
    decreases n,
{
    if n <= 0 {
        Seq::empty()
    } else {
        let prev = survivors(cfg, children, parent, n - 1);
        if n > children.len() || cfg.ignores(child_path(parent, children[n - 1].label())) {
            prev
        } else {
            prev.insert(slot(children, prev, children[n - 1], 0), (n - 1) as usize)
        }
    }
}

/// The walk from `e`, which lies at `path`: every node that is visited, in
/// order, or the failure that stops the walk. An excluded node is skipped
/// with all below it; a directory is followed by the walks of its surviving
/// entries in visiting order.
pub open spec fn visits(cfg: Path2Md, e: Entry, path: Seq<char>, depth: nat, is_last: bool) -> Result<
    Seq<Visit>,
    WalkFailure,
>
    decreases e, 0nat,
{
    if cfg.ignores(path) {
        Ok(Seq::empty())
    } else {
        match e {
            Entry::Unsupported { .. } => Err(
                WalkFailure::UnsupportedPathType(cfg.header_of(path)),
            ),
            Entry::UnreadableDirectory { cause, .. } => Err(
                WalkFailure::FailedToReadDir(cause@, cfg.header_of(path)),
            ),
            Entry::File { .. } => Ok(seq![Visit { path, depth, is_last, entry: e }]),
            Entry::Directory { children, .. } => {
                let order = survivors(cfg, children@, path, children@.len() as int);
                match visits_among(cfg, children@, order, path, depth + 1, order.len()) {
                    Ok(below) => Ok(seq![Visit { path, depth, is_last, entry: e }] + below),
                    Err(f) => Err(f),
                }
            },
        }
    }
}

/// The walks of the entries `order[0..upto]` of one directory, one after the
/// other; the first failure stops them.
pub open spec fn visits_among(
    cfg: Path2Md,
    children: Seq<Entry>,
    order: Seq<usize>,
    parent: Seq<char>,
    depth: nat,
    upto: nat,
) -> Result<Seq<Visit>, WalkFailure>
    decreases children, upto,
{
    if upto == 0 || upto > order.len() {
        Ok(Seq::empty())
    } else {
        match visits_among(cfg, children, order, parent, depth, (upto - 1) as nat) {
            Err(f) => Err(f),
            Ok(earlier) => {
                let i = order[upto - 1];
                if i >= children.len() {
                    Ok(earlier)
                } else {
                    match visits(
                        cfg,
                        children[i as int],
                        child_path(parent, children[i as int].label()),
                        depth,
                        upto == order.len(),
                    ) {
                        Ok(next) => Ok(earlier + next),
                        Err(f) => Err(f),
                    }
                }
            },
        }
    }
}

/// The nodes that the walk from `e` visits before it ends or fails: all of
/// `visits` where the walk succeeds, and what came before the failing node
/// where it does not. A directory whose listing cannot be read is itself
/// visited before the walk fails on it.
pub open spec fn reached(cfg: Path2Md, e: Entry, path: Seq<char>, depth: nat, is_last: bool) -> Seq<
    Visit,
>
    decreases e, 0nat,
{
    if cfg.ignores(path) {
        Seq::empty()
    } else {
        match e {
            Entry::Unsupported { .. } => Seq::empty(),
            Entry::UnreadableDirectory { .. } => seq![Visit { path, depth, is_last, entry: e }],
            Entry::File { .. } => seq![Visit { path, depth, is_last, entry: e }],
            Entry::Directory { children, .. } => {
                let order = survivors(cfg, children@, path, children@.len() as int);
                seq![Visit { path, depth, is_last, entry: e }] + reached_among(
                    cfg,
                    children@,
                    order,
                    path,
                    depth + 1,
                    order.len(),
                )
            },
        }
    }
}

/// The nodes visited in the walks of the entries `order[0..upto]` of one
/// directory; after the first failure nothing more is visited.
pub open spec fn reached_among(
    cfg: Path2Md,
    children: Seq<Entry>,
    order: Seq<usize>,
    parent: Seq<char>,
    depth: nat,
    upto: nat,
) -> Seq<Visit>
    decreases children, upto,
{
    if upto == 0 || upto > order.len() {
        Seq::empty()
    } else {
        let earlier = reached_among(cfg, children, order, parent, depth, (upto - 1) as nat);
        let i = order[upto - 1];
        if visits_among(cfg, children, order, parent, depth, (upto - 1) as nat) is Err || i
            >= children.len() {
            earlier
        } else {
            earlier + reached(
                cfg,
                children[i as int],
                child_path(parent, children[i as int].label()),
                depth,
                upto == order.len(),
            )
        }
    }
}

/// The names of these entries hold no backslash.
pub open spec fn plain_names(children: Seq<Entry>) -> bool {
    forall|i: int| 0 <= i < children.len() ==> portable((#[trigger] children[i]).label())
}

/// No name among these entries or below them holds a backslash.
pub open spec fn plain_entries(children: Seq<Entry>) -> bool
    decreases children,
{
    forall|i: int|
        0 <= i < children.len() ==> portable((#[trigger] children[i]).label()) && plain_below(
            children[i],
        )
}

/// No name below `e` holds a backslash. The name of `e` itself is free: it
/// is part of no path.
pub open spec fn plain_below(e: Entry) -> bool
    decreases e,
{
    match e {
        Entry::Directory { children, .. } => plain_entries(children@),
        _ => true,
    }
}

/// A portable name under a portable path gives a portable path.
pub proof fn lemma_child_path_portable(parent: Seq<char>, name: Seq<char>)
    requires
        portable(parent),
        portable(name),
    ensures
        portable(child_path(parent, name)),
{
}

/// Once the walk of a directory's entries has failed, nothing more is
/// visited.
pub proof fn lemma_reached_stays(
    cfg: Path2Md,
    children: Seq<Entry>,
    order: Seq<usize>,
    parent: Seq<char>,
    depth: nat,
    upto: nat,
    later: nat,
)
    requires
        visits_among(cfg, children, order, parent, depth, upto) is Err,
        upto <= later <= order.len(),
    ensures
        reached_among(cfg, children, order, parent, depth, later) == reached_among(
            cfg,
            children,
            order,
            parent,
            depth,
            upto,
        ),
    decreases later,
{
    if later > upto {
        lemma_reached_stays(cfg, children, order, parent, depth, upto, (later - 1) as nat);
        lemma_failure_stays(cfg, children, order, parent, depth, upto, (later - 1) as nat);
    }
}

/// Once the walk of a directory's entries has failed, it stays failed.
pub proof fn lemma_failure_stays(
    cfg: Path2Md,
    children: Seq<Entry>,
    order: Seq<usize>,
    parent: Seq<char>,
    depth: nat,
    upto: nat,
    later: nat,
)
    requires
        visits_among(cfg, children, order, parent, depth, upto) is Err,
        upto <= later <= order.len(),
    ensures
        visits_among(cfg, children, order, parent, depth, later) == visits_among(
            cfg,
            children,
            order,
            parent,
            depth,
            upto,
        ),
    decreases later,
{
    if later > upto {
        lemma_failure_stays(cfg, children, order, parent, depth, upto, (later - 1) as nat);
    }
}

/// Joins a directory's path and an entry's name.
pub fn join_path(parent: &str, name: &str) -> (r: String)
    ensures
        r@ == child_path(parent@, name@),
{
    if parent.is_empty() {
        String::from_str(name)
    } else {
        let mut r = String::from_str(parent);
        r.append("/");
        r.append(name);
        proof {
            reveal_strlit("/");
            assert("/"@ =~= seq!['/']);
        }
        r
    }
}

impl Path2Md {
    /// A configuration for the root shown as `root`: no exclusion rules,
    /// outline and file blocks both wanted.
    pub fn new(root: String) -> (r: Self)
        ensures
            r.root == root,
            r.ignore is None,
            !r.structure_only,
    {
        Path2Md { root, ignore: None, structure_only: false }
    }

    /// The same configuration with `ignore` as its exclusion rules: glob
    /// patterns, matched against paths relative to the root.
    pub fn ignore(self, ignore: Option<Vec<String>>) -> (r: Self)
        ensures
            r.root == self.root,
            r.ignore == ignore,
            r.structure_only == self.structure_only,
    {
        Path2Md { root: self.root, ignore, structure_only: self.structure_only }
    }

    /// The same configuration with the choice whether only the outline is
    /// wanted.
    pub fn structure_only(self, structure_only: bool) -> (r: Self)
        ensures
            r.root == self.root,
            r.ignore == self.ignore,
            r.structure_only == structure_only,
    {
        Path2Md { root: self.root, ignore: self.ignore, structure_only }
    }

    /// Whether the rules exclude the node at `path`, and with it all below.
    pub open spec fn ignores(&self, path: Seq<char>) -> bool {
        match self.ignore {
            Some(patterns) => excluded(patterns@, path),
            None => false,
        }
    }

    /// Whether every rule is free of backslashes.
    pub open spec fn plain_rules(&self) -> bool {
        match self.ignore {
            Some(patterns) => all_portable(patterns@),
            None => true,
        }
    }

    /// Whether the walk from `e` at `path` is the same on every platform:
    /// there are no rules at all, or no rule and no path that is matched
    /// holds a backslash.
    pub open spec fn settled(&self, e: Entry, path: Seq<char>) -> bool {
        self.ignore is None || (self.plain_rules() && portable(path) && plain_below(e))
    }

    /// Whether the choice among the entries of the directory at `parent` is
    /// the same on every platform.
    pub open spec fn settled_among(&self, children: Seq<Entry>, parent: Seq<char>) -> bool {
        self.ignore is None || (self.plain_rules() && portable(parent) && plain_names(children))
    }

    /// How a path is shown: relative to the root, or the root's own display
    /// name where the path is the root's.
    pub open spec fn header_of(&self, path: Seq<char>) -> Seq<char> {
        if path.len() == 0 {
            self.root@
        } else {
            path
        }
    }

    /// Shows `path` as [`Path2Md::header_of`] says.
    pub fn shown_path(&self, path: &str) -> (r: String)
        ensures
            r@ == self.header_of(path@),
    {
        if path.is_empty() {
            self.root.clone()
        } else {
            String::from_str(path)
        }
    }

    /// Whether the node at `path` is visited: no rule excludes it. Exact
    /// where no rule and not the path holds a backslash; a text with a
    /// backslash is matched as the platform matches it.
    pub fn should_walk_path(&self, path: &str) -> (r: bool)
        ensures
            self.ignores(path@) ==> !r,
            self.plain_rules() && portable(path@) ==> r == !self.ignores(path@),
            self.ignore is None ==> r,
    {
        match &self.ignore {
            Some(patterns) => !is_excluded(patterns, path),
            None => true,
        }
    }

    /// The surviving entries of the directory at `parent`, as indices into
    /// `children`, in visiting order.
    pub fn surviving_order(&self, children: &Vec<Entry>, parent: &str) -> (order: Vec<usize>)
        ensures
            forall|k: int| 0 <= k < order@.len() ==> #[trigger] order@[k] < children@.len(),
            self.settled_among(children@, parent@) ==> order@ == survivors(
                *self,
                children@,
                parent@,
                children@.len() as int,
            ),
    {
        let ghost exact = self.settled_among(children@, parent@);
        let mut order: Vec<usize> = Vec::new();
        let mut n: usize = 0;
        while n < children.len()
            invariant
                n <= children@.len(),
                exact == self.settled_among(children@, parent@),
                exact ==> order@ == survivors(*self, children@, parent@, n as int),
                forall|k: int| 0 <= k < order@.len() ==> #[trigger] order@[k] < n,
            decreases children@.len() - n,
        {
            let child = &children[n];
            let path = join_path(parent, child.name());
            proof {
                if exact && self.ignore is Some {
                    assert(portable(children@[n as int].label()));
                    lemma_child_path_portable(parent@, child.label());
                }
            }
            if self.should_walk_path(path.as_str()) {
                let mut k: usize = 0;
                while k < order.len() && !sorts_before(child, &children[order[k]])
                    invariant
                        k <= order@.len(),
                        n < children@.len(),
                        *child == children@[n as int],
                        forall|j: int| 0 <= j < order@.len() ==> #[trigger] order@[j] < n,
                        slot(children@, order@, *child, 0) == slot(
                            children@,
                            order@,
                            *child,
                            k as int,
                        ),
                    decreases order@.len() - k,
                {
                    k += 1;
                }
                let ghost prev = order@;
                order.insert(k, n);
                assert forall|j: int| 0 <= j < order@.len() implies #[trigger] order@[j] < n
                    + 1 by {
                    if j < k {
                        assert(order@[j] == prev[j]);
                    } else if j > k {
                        assert(order@[j] == prev[j - 1]);
                    }
                }
            }
            n += 1;
        }
        order
    }

    fn walk_into<'a>(
        &self,
        entry: &'a Entry,
        path: &str,
        depth: usize,
        is_last: bool,
        nodes: &mut Vec<WalkNode<'a>>,
    ) -> (r: Result<(), WalkPathError>)
        requires
            depth <= old(nodes)@.len(),
        ensures
            final(nodes)@.len() >= old(nodes)@.len(),
            visit_views(final(nodes)@).take(old(nodes)@.len() as int) == visit_views(old(nodes)@),
            self.settled(*entry, path@) ==> reached(*self, *entry, path@, depth as nat, is_last)
                == visit_views(final(nodes)@).skip(old(nodes)@.len() as int),
            self.settled(*entry, path@) ==> match r {
                Ok(()) => visits(*self, *entry, path@, depth as nat, is_last) == Ok::<
                    Seq<Visit>,
                    WalkFailure,
                >(reached(*self, *entry, path@, depth as nat, is_last)),
                Err(e) => visits(*self, *entry, path@, depth as nat, is_last) == Err::<
                    Seq<Visit>,
                    WalkFailure,
                >(e@),
            },
        decreases entry,
    {
        let ghost exact = self.settled(*entry, path@);
        let ghost before = visit_views(nodes@);
        assert(visit_views(nodes@).skip(nodes@.len() as int) =~= Seq::empty());
        assert(visit_views(nodes@).take(nodes@.len() as int) =~= visit_views(nodes@));
        if !self.should_walk_path(path) {
            return Ok(());
        }
        match entry {
            Entry::Unsupported { .. } => Err(
                WalkPathError::UnsupportedPathType(self.shown_path(path)),
            ),
            Entry::UnreadableDirectory { cause, .. } => {
                let node = WalkNode { path: String::from_str(path), depth, is_last, entry };
                nodes.push(node);
                assert(visit_views(nodes@).skip(before.len() as int) =~= seq![node@]);
                assert(visit_views(nodes@).take(before.len() as int) =~= before);
                Err(WalkPathError::FailedToReadDir(cause.clone(), self.shown_path(path)))
            },
            Entry::File { .. } => {
                let node = WalkNode { path: String::from_str(path), depth, is_last, entry };
                nodes.push(node);
                assert(visit_views(nodes@).skip(before.len() as int) =~= seq![node@]);
                assert(visit_views(nodes@).take(before.len() as int) =~= before);
                Ok(())
            },
            Entry::Directory { children, .. } => {
                proof {
                    if exact && self.ignore is Some {
                        assert(plain_entries(children@));
                        assert(plain_names(children@));
                    }
                }
                let order = self.surviving_order(children, path);
                let node = WalkNode { path: String::from_str(path), depth, is_last, entry };
                nodes.push(node);
                let below: usize = nodes.len();
                let deeper: usize = depth + 1;
                assert(visit_views(nodes@).skip(below as int) =~= Seq::empty());
                assert(visit_views(nodes@).take(before.len() as int) =~= before);
                let mut k: usize = 0;
                while k < order.len()
                    invariant
                        k <= order@.len(),
                        deeper == depth + 1,
                        exact == self.settled(*entry, path@),
                        exact ==> !self.ignores(path@),
                        before == visit_views(old(nodes)@),
                        node@ == (Visit {
                            path: path@,
                            depth: depth as nat,
                            is_last,
                            entry: *entry,
                        }),
                        deeper <= nodes@.len(),
                        *entry == (Entry::Directory { name: entry->Directory_name, children: *children }),
                        below == before.len() + 1,
                        nodes@.len() >= below,
                        exact ==> order@ == survivors(
                            *self,
                            children@,
                            path@,
                            children@.len() as int,
                        ),
                        forall|j: int|
                            0 <= j < order@.len() ==> #[trigger] order@[j] < children@.len(),
                        visit_views(nodes@).take(before.len() as int) == before,
                        visit_views(nodes@)[before.len() as int] == node@,
                        exact ==> visits_among(
                            *self,
                            children@,
                            order@,
                            path@,
                            (depth + 1) as nat,
                            k as nat,
                        ) == Ok::<Seq<Visit>, WalkFailure>(
                            visit_views(nodes@).skip(below as int),
                        ),
                        exact ==> reached_among(
                            *self,
                            children@,
                            order@,
                            path@,
                            (depth + 1) as nat,
                            k as nat,
                        ) == visit_views(nodes@).skip(below as int),
                    decreases order@.len() - k,
                {
                    let i: usize = order[k];
                    let child = &children[i];
                    let child_at = join_path(path, child.name());
                    let ghost so_far = visit_views(nodes@);
                    let last: bool = k + 1 == order.len();
                    proof {
                        assert(decreases_to!(*entry => *children));
                        assert(decreases_to!(*children => children@));
                        assert(decreases_to!(children@ => children@[i as int]));
                        if exact && self.ignore is Some {
                            assert(plain_entries(children@));
                            assert(portable(children@[i as int].label()));
                            assert(plain_below(children@[i as int]));
                            lemma_child_path_portable(path@, child.label());
                        }
                    }
                    let r = self.walk_into(child, child_at.as_str(), deeper, last, nodes);
                    proof {
                        let now = visit_views(nodes@);
                        assert(now.take(so_far.len() as int) == so_far);
                        assert(now.take(before.len() as int) =~= so_far.take(before.len() as int));
                        assert(now[before.len() as int] == now.take(
                            so_far.len() as int,
                        )[before.len() as int]);
                        assert(now.skip(below as int) =~= so_far.skip(below as int) + now.skip(
                            so_far.len() as int,
                        )) by {
                            assert forall|j: int| below <= j < so_far.len() implies now[j]
                                == so_far[j] by {
                                assert(now.take(so_far.len() as int)[j] == now[j]);
                            }
                        }
                    }
                    match r {
                        Err(e) => {
                            proof {
                                if exact {
                                    assert(visits_among(
                                        *self,
                                        children@,
                                        order@,
                                        path@,
                                        deeper as nat,
                                        (k + 1) as nat,
                                    ) == Err::<Seq<Visit>, WalkFailure>(e@));
                                    assert(reached_among(
                                        *self,
                                        children@,
                                        order@,
                                        path@,
                                        deeper as nat,
                                        (k + 1) as nat,
                                    ) == visit_views(nodes@).skip(below as int));
                                    lemma_failure_stays(
                                        *self,
                                        children@,
                                        order@,
                                        path@,
                                        deeper as nat,
                                        (k + 1) as nat,
                                        order@.len(),
                                    );
                                    lemma_reached_stays(
                                        *self,
                                        children@,
                                        order@,
                                        path@,
                                        deeper as nat,
                                        (k + 1) as nat,
                                        order@.len(),
                                    );
                                }
                                let now = visit_views(nodes@);
                                assert(now.skip(before.len() as int) =~= seq![node@] + now.skip(
                                    below as int,
                                ));
                            }
                            return Err(e);
                        },
                        Ok(()) => {},
                    }
                    k += 1;
                }
                proof {
                    let now = visit_views(nodes@);
                    assert(now.skip(before.len() as int) =~= seq![node@] + now.skip(below as int));
                }
                Ok(())
            },
        }
    }

    /// Walks `tree` from the root. Gives the nodes visited, in order, and
    /// how the walk ended: a failure stops it, and the nodes visited before
    /// it are still handed back. With rules, and a backslash in a rule or a
    /// name, which nodes are excluded follows the platform's matching.
    pub fn walk<'a>(&self, tree: &'a Entry) -> (r: (Vec<WalkNode<'a>>, Result<(), WalkPathError>))
        ensures
            self.settled(*tree, Seq::empty()) ==> visit_views(r.0@) == reached(
                *self,
                *tree,
                Seq::empty(),
                0,
                true,
            ),
            self.settled(*tree, Seq::empty()) ==> match r.1 {
                Ok(()) => visits(*self, *tree, Seq::empty(), 0, true) == Ok::<
                    Seq<Visit>,
                    WalkFailure,
                >(visit_views(r.0@)),
                Err(e) => visits(*self, *tree, Seq::empty(), 0, true) == Err::<
                    Seq<Visit>,
                    WalkFailure,
                >(e@),
            },
    {
        let mut nodes: Vec<WalkNode<'a>> = Vec::new();
        let root = String::new();
        let outcome = self.walk_into(tree, root.as_str(), 0, true, &mut nodes);
        assert(visit_views(nodes@).skip(0) =~= visit_views(nodes@));
        (nodes, outcome)
    }
}

} // verus!
