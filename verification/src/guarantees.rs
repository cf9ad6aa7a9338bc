//! What holds of every walk and of every report.

use vstd::prelude::*;
use crate::entry::Entry;
use crate::format::FormatView;
use crate::render::bars;
use crate::render::branch;
use crate::render::file_body;
use crate::render::section;
use crate::render::structure_line;
use crate::render::structure_text;
use crate::render::ReportFailure;
use crate::ordering::lemma_survivors;
use crate::text::indent;
use crate::text::indented_line;
use crate::text::indented_lines;
use crate::text::is_space;
use crate::text::line_end;
use crate::text::split_lines;
use crate::text::trim_end;
use crate::text::trimmed_len;
use crate::walk::child_path;
use crate::walk::lemma_failure_stays;
use crate::walk::reached;
use crate::walk::reached_among;
use crate::walk::survivors;
use crate::walk::visits;
use crate::walk::visits_among;
use crate::walk::Path2Md;
use crate::walk::Visit;
use crate::walk::WalkFailure;

verus! {

/// An excluded node is pruned with everything below it: whatever the
/// subtree holds, its walk visits nothing and cannot fail, so it adds no
/// line to the outline and no block to the contents.
pub proof fn lemma_excluded_subtree_vanishes(
    cfg: Path2Md,
    e: Entry,
    path: Seq<char>,
    depth: nat,
    is_last: bool,
)
    requires
        cfg.ignores(path),
    ensures
        visits(cfg, e, path, depth, is_last) == Ok::<Seq<Visit>, WalkFailure>(Seq::empty()),
        structure_text(Seq::empty()) == Seq::<char>::empty(),
        cfg.contents_text(Seq::empty()) == Ok::<Seq<char>, Seq<char>>(Seq::<char>::empty()),
{
}

/// A walk that succeeds on a node that no rule excludes starts with that
/// node, at the depth and with the sibling flag that it was entered with.
pub proof fn lemma_walk_starts_with_node(
    cfg: Path2Md,
    e: Entry,
    path: Seq<char>,
    depth: nat,
    is_last: bool,
)
    requires
        !cfg.ignores(path),
        visits(cfg, e, path, depth, is_last) is Ok,
    ensures
        ({
            let seen = visits(cfg, e, path, depth, is_last)->Ok_0;
            seen.len() > 0 && seen[0] == (Visit { path, depth, is_last, entry: e })
        }),
{
}

/// A walk that succeeds has reached exactly the nodes it visits, so what is
/// written on success is the whole report.
pub proof fn lemma_reached_is_visited(
    cfg: Path2Md,
    e: Entry,
    path: Seq<char>,
    depth: nat,
    is_last: bool,
)
    requires
        visits(cfg, e, path, depth, is_last) is Ok,
    ensures
        reached(cfg, e, path, depth, is_last) == visits(cfg, e, path, depth, is_last)->Ok_0,
    decreases e, 0nat,
{
    if !cfg.ignores(path) {
        match e {
            Entry::Directory { children, .. } => {
                let order = survivors(cfg, children@, path, children@.len() as int);
                lemma_entries_reached_are_visited(
                    cfg,
                    children@,
                    order,
                    path,
                    depth + 1,
                    order.len(),
                );
            },
            _ => {},
        }
    }
}

/// The same of the walks of a directory's entries.
pub proof fn lemma_entries_reached_are_visited(
    cfg: Path2Md,
    children: Seq<Entry>,
    order: Seq<usize>,
    parent: Seq<char>,
    depth: nat,
    upto: nat,
)
    requires
        visits_among(cfg, children, order, parent, depth, upto) is Ok,
    ensures
        reached_among(cfg, children, order, parent, depth, upto) == visits_among(
            cfg,
            children,
            order,
            parent,
            depth,
            upto,
        )->Ok_0,
    decreases children, upto,
{
    if upto != 0 && upto <= order.len() {
        lemma_entries_reached_are_visited(cfg, children, order, parent, depth, (upto - 1) as nat);
        let i = order[upto - 1];
        if i < children.len() {
            lemma_reached_is_visited(
                cfg,
                children[i as int],
                child_path(parent, children[i as int].label()),
                depth,
                upto == order.len(),
            );
        }
    }
}

/// No walk visits a node that a rule excludes, and every node visited below
/// the start lies deeper than the start.
pub proof fn lemma_visited_nodes_survive(
    cfg: Path2Md,
    e: Entry,
    path: Seq<char>,
    depth: nat,
    is_last: bool,
)
    ensures
        visits(cfg, e, path, depth, is_last) matches Ok(seen) ==> forall|i: int|
            0 <= i < seen.len() ==> !cfg.ignores((#[trigger] seen[i]).path) && seen[i].depth
                >= depth,
    decreases e, 0nat,
{
    if !cfg.ignores(path) {
        match e {
            Entry::Directory { children, .. } => {
                let order = survivors(cfg, children@, path, children@.len() as int);
                lemma_entries_visited_survive(cfg, children@, order, path, depth + 1, order.len());
            },
            _ => {},
        }
    }
}

/// The same of the walks of a directory's entries.
pub proof fn lemma_entries_visited_survive(
    cfg: Path2Md,
    children: Seq<Entry>,
    order: Seq<usize>,
    parent: Seq<char>,
    depth: nat,
    upto: nat,
)
    ensures
        visits_among(cfg, children, order, parent, depth, upto) matches Ok(seen) ==> forall|
            i: int,
        |
            0 <= i < seen.len() ==> !cfg.ignores((#[trigger] seen[i]).path) && seen[i].depth
                >= depth,
    decreases children, upto,
{
    if upto != 0 && upto <= order.len() {
        lemma_entries_visited_survive(cfg, children, order, parent, depth, (upto - 1) as nat);
        let i = order[upto - 1];
        if i < children.len() {
            lemma_visited_nodes_survive(
                cfg,
                children[i as int],
                child_path(parent, children[i as int].label()),
                depth,
                upto == order.len(),
            );
        }
    }
}

/// Whether the tree `e`, which lies at `path`, holds at `target` a node
/// that survives the rules: no rule excludes the node or a directory on the
/// way to it. With `files_only`, only a file counts.
pub open spec fn holds_survivor(
    cfg: Path2Md,
    e: Entry,
    path: Seq<char>,
    target: Seq<char>,
    files_only: bool,
) -> bool
    decreases e,
{
    !cfg.ignores(path) && match e {
        Entry::File { .. } => path == target,
        Entry::Directory { children, .. } => (path == target && !files_only) || exists|i: int|
            0 <= i < children@.len() && holds_survivor(
                cfg,
                #[trigger] children@[i],
                child_path(path, children@[i].label()),
                target,
                files_only,
            ),
        _ => path == target && !files_only,
    }
}

/// Whether a visit counts as the node at `target`.
pub open spec fn is_at(v: Visit, target: Seq<char>, files_only: bool) -> bool {
    v.path == target && (!files_only || v.entry is File)
}

/// Whether the node at `target` is among the visited nodes: all of them
/// have a line in the outline, the files among them a block in the contents.
pub open spec fn shows(seen: Seq<Visit>, target: Seq<char>, files_only: bool) -> bool {
    exists|j: int| 0 <= j < seen.len() && is_at(#[trigger] seen[j], target, files_only)
}

/// Whether one of the first `upto` entries of the visiting order holds a
/// surviving node at `target`.
pub open spec fn entries_hold_survivor(
    cfg: Path2Md,
    children: Seq<Entry>,
    order: Seq<usize>,
    parent: Seq<char>,
    upto: nat,
    target: Seq<char>,
    files_only: bool,
) -> bool {
    exists|k: int|
        0 <= k < upto && k < order.len() && holds_survivor(
            cfg,
            children[#[trigger] order[k] as int],
            child_path(parent, children[order[k] as int].label()),
            target,
            files_only,
        )
}

/// A node is among two runs of visits exactly when it is in one of them.
pub proof fn lemma_shows_in_either(
    a: Seq<Visit>,
    b: Seq<Visit>,
    target: Seq<char>,
    files_only: bool,
)
    ensures
        shows(a + b, target, files_only) <==> shows(a, target, files_only) || shows(
            b,
            target,
            files_only,
        ),
{
    let ab = a + b;
    if shows(ab, target, files_only) {
        let j = choose|j: int| 0 <= j < ab.len() && is_at(#[trigger] ab[j], target, files_only);
        if j < a.len() {
            assert(a[j] == ab[j]);
        } else {
            assert(b[j - a.len()] == ab[j]);
        }
    }
    if shows(a, target, files_only) {
        let j = choose|j: int| 0 <= j < a.len() && is_at(#[trigger] a[j], target, files_only);
        assert(ab[j] == a[j]);
    }
    if shows(b, target, files_only) {
        let j = choose|j: int| 0 <= j < b.len() && is_at(#[trigger] b[j], target, files_only);
        assert(ab[j + a.len()] == b[j]);
    }
}

/// The nodes that a successful walk visits are exactly the nodes of the
/// tree that survive the rules, and the files among them exactly the
/// surviving files: none is left out, none is added, and nothing below an
/// excluded directory is among them.
pub proof fn lemma_walk_visits_survivors(
    cfg: Path2Md,
    e: Entry,
    path: Seq<char>,
    depth: nat,
    is_last: bool,
    target: Seq<char>,
    files_only: bool,
)
    requires
        visits(cfg, e, path, depth, is_last) is Ok,
    ensures
        shows(visits(cfg, e, path, depth, is_last)->Ok_0, target, files_only) <==> holds_survivor(
            cfg,
            e,
            path,
            target,
            files_only,
        ),
    decreases e, 0nat,
{
    let seen = visits(cfg, e, path, depth, is_last)->Ok_0;
    if !cfg.ignores(path) {
        let own = Visit { path, depth, is_last, entry: e };
        match e {
            Entry::Directory { children, .. } => {
                let order = survivors(cfg, children@, path, children@.len() as int);
                assert(children@.len() == children.len());
                lemma_survivors(cfg, children@, path, children@.len() as int);
                lemma_entries_visit_survivors(
                    cfg,
                    children@,
                    order,
                    path,
                    depth + 1,
                    order.len(),
                    target,
                    files_only,
                );
                let below = visits_among(cfg, children@, order, path, depth + 1, order.len())->Ok_0;
                lemma_shows_in_either(seq![own], below, target, files_only);
                assert(seq![own][0] == own);
                if shows(seq![own], target, files_only) {
                    let j = choose|j: int|
                        0 <= j < seq![own].len() && is_at(
                            #[trigger] seq![own][j],
                            target,
                            files_only,
                        );
                    assert(j == 0);
                }
                if entries_hold_survivor(
                    cfg,
                    children@,
                    order,
                    path,
                    order.len(),
                    target,
                    files_only,
                ) {
                    let k = choose|k: int|
                        0 <= k < order.len() && holds_survivor(
                            cfg,
                            children@[#[trigger] order[k] as int],
                            child_path(path, children@[order[k] as int].label()),
                            target,
                            files_only,
                        );
                    assert(order[k] < children@.len());
                    assert(holds_survivor(cfg, e, path, target, files_only));
                }
                if holds_survivor(cfg, e, path, target, files_only) && !(path == target
                    && !files_only) {
                    let i = choose|i: int|
                        0 <= i < children@.len() && holds_survivor(
                            cfg,
                            #[trigger] children@[i],
                            child_path(path, children@[i].label()),
                            target,
                            files_only,
                        );
                    let k = choose|k: int| 0 <= k < order.len() && order[k] == i;
                    assert(children@[order[k] as int] == children@[i]);
                    assert(entries_hold_survivor(
                        cfg,
                        children@,
                        order,
                        path,
                        order.len(),
                        target,
                        files_only,
                    ));
                }
            },
            Entry::File { .. } => {
                assert(seen[0] == own);
                if shows(seen, target, files_only) {
                    let j = choose|j: int|
                        0 <= j < seen.len() && is_at(#[trigger] seen[j], target, files_only);
                    assert(j == 0);
                }
            },
            _ => {},
        }
    }
}

/// The same of the walks of the first `upto` surviving entries of a
/// directory.
pub proof fn lemma_entries_visit_survivors(
    cfg: Path2Md,
    children: Seq<Entry>,
    order: Seq<usize>,
    parent: Seq<char>,
    depth: nat,
    upto: nat,
    target: Seq<char>,
    files_only: bool,
)
    requires
        upto <= order.len(),
        forall|k: int| 0 <= k < order.len() ==> #[trigger] order[k] < children.len(),
        visits_among(cfg, children, order, parent, depth, upto) is Ok,
    ensures
        shows(
            visits_among(cfg, children, order, parent, depth, upto)->Ok_0,
            target,
            files_only,
        ) <==> entries_hold_survivor(cfg, children, order, parent, upto, target, files_only),
    decreases children, upto,
{
    if upto > 0 {
        let before = (upto - 1) as nat;
        let earlier = visits_among(cfg, children, order, parent, depth, before)->Ok_0;
        let i = order[upto - 1];
        let child = children[i as int];
        let at = child_path(parent, child.label());
        let next = visits(cfg, child, at, depth, upto == order.len())->Ok_0;
        lemma_entries_visit_survivors(
            cfg,
            children,
            order,
            parent,
            depth,
            before,
            target,
            files_only,
        );
        lemma_walk_visits_survivors(
            cfg,
            child,
            at,
            depth,
            upto == order.len(),
            target,
            files_only,
        );
        lemma_shows_in_either(earlier, next, target, files_only);
        if entries_hold_survivor(cfg, children, order, parent, upto, target, files_only) {
            let k = choose|k: int|
                0 <= k < upto && k < order.len() && holds_survivor(
                    cfg,
                    children[#[trigger] order[k] as int],
                    child_path(parent, children[order[k] as int].label()),
                    target,
                    files_only,
                );
            if k < before {
                assert(entries_hold_survivor(
                    cfg,
                    children,
                    order,
                    parent,
                    before,
                    target,
                    files_only,
                ));
            }
        }
        if entries_hold_survivor(cfg, children, order, parent, before, target, files_only) {
            let k = choose|k: int|
                0 <= k < before && k < order.len() && holds_survivor(
                    cfg,
                    children[#[trigger] order[k] as int],
                    child_path(parent, children[order[k] as int].label()),
                    target,
                    files_only,
                );
        }
        if holds_survivor(cfg, child, at, target, files_only) {
            assert(children[order[upto - 1] as int] == child);
        }
    }
}

/// In a directory at depth `depth` whose entries are walked without
/// failure, the surviving entry at position `k` of the visiting order is
/// visited one level deeper, and it is flagged as last exactly when `k` is
/// the last position among the survivors.
pub proof fn lemma_last_flag_marks_last_survivor(
    cfg: Path2Md,
    children: Seq<Entry>,
    parent: Seq<char>,
    depth: nat,
    k: int,
)
    requires
        children.len() <= usize::MAX,
        0 <= k < survivors(cfg, children, parent, children.len() as int).len(),
        visits_among(
            cfg,
            children,
            survivors(cfg, children, parent, children.len() as int),
            parent,
            depth + 1,
            survivors(cfg, children, parent, children.len() as int).len(),
        ) is Ok,
    ensures
        ({
            let order = survivors(cfg, children, parent, children.len() as int);
            let child = children[order[k] as int];
            let below = visits(
                cfg,
                child,
                child_path(parent, child.label()),
                depth + 1,
                k == order.len() - 1,
            );
            &&& order[k] < children.len()
            &&& below matches Ok(seen) && seen.len() > 0 && seen[0].entry == child
                && seen[0].depth == depth + 1 && (seen[0].is_last <==> k == order.len() - 1)
        }),
{
    let order = survivors(cfg, children, parent, children.len() as int);
    lemma_survivors(cfg, children, parent, children.len() as int);
    let upto = (k + 1) as nat;
    if visits_among(cfg, children, order, parent, depth + 1, upto) is Err {
        lemma_failure_stays(cfg, children, order, parent, depth + 1, upto, order.len());
    }
    assert(order[k] < children.len());
    let child = children[order[k] as int];
    assert(!cfg.ignores(child_path(parent, child.label())));
}

/// `n` continuation markers take two characters each.
pub proof fn lemma_bars_len(n: nat)
    ensures
        bars(n).len() == 2 * n,
    decreases n,
{
    if n > 0 {
        lemma_bars_len((n - 1) as nat);
    }
}

/// The line of a node below the root: the glyph stands `2 * depth + 2`
/// characters in, so the indentation grows with the depth, and it is `└─`
/// exactly when the node is flagged as last, `├─` otherwise.
pub proof fn lemma_glyph(name: Seq<char>, depth: nat, is_last: bool)
    requires
        depth > 0,
    ensures
        ({
            let line = structure_line(name, depth, is_last);
            &&& line.len() == 2 * depth + 5 + name.len()
            &&& line.subrange(0, 4) == indent()
            &&& line.subrange(2 * depth + 2 as int, 2 * depth + 4 as int) == branch(is_last)
            &&& line.subrange(2 * depth + 4 as int, line.len() - 1) == name
            &&& (branch(is_last) == seq!['└', '─'] <==> is_last)
            &&& (branch(is_last) == seq!['├', '─'] <==> !is_last)
        }),
{
    lemma_bars_len((depth - 1) as nat);
    let line = structure_line(name, depth, is_last);
    assert(line.subrange(0, 4) =~= indent());
    assert(line.subrange(2 * depth + 2 as int, 2 * depth + 4 as int) =~= branch(is_last));
    assert(line.subrange(2 * depth + 4 as int, line.len() - 1) =~= name);
    assert(seq!['└', '─'][0] == '└');
    assert(seq!['├', '─'][0] == '├');
}

/// Right-trimming removes whitespace and nothing else: what is kept is the
/// start of the line and does not end in whitespace, and what is dropped is
/// whitespace only.
pub proof fn lemma_trim_end(line: Seq<char>)
    ensures
        trimmed_len(line) <= line.len(),
        trim_end(line) + line.skip(trimmed_len(line) as int) == line,
        forall|i: int| trimmed_len(line) <= i < line.len() ==> is_space(#[trigger] line[i]),
        trimmed_len(line) > 0 ==> !is_space(line[trimmed_len(line) - 1]),
        (forall|i: int| 0 <= i < line.len() ==> !is_space(#[trigger] line[i])) ==> trim_end(line)
            == line,
    decreases line.len(),
{
    if line.len() > 0 && is_space(line.last()) {
        lemma_trim_end(line.drop_last());
        assert forall|i: int| trimmed_len(line) <= i < line.len() implies is_space(
            #[trigger] line[i],
        ) by {
            if i < line.len() - 1 {
                assert(line.drop_last()[i] == line[i]);
            }
        }
        if trimmed_len(line) > 0 {
            assert(line.drop_last()[trimmed_len(line) - 1] == line[trimmed_len(line) - 1]);
        }
    }
    assert(trim_end(line) + line.skip(trimmed_len(line) as int) =~= line);
    if forall|i: int| 0 <= i < line.len() ==> !is_space(#[trigger] line[i]) {
        assert(trim_end(line) =~= line);
    }
}

/// Where a line ends: at or after its start, within the text, and with no
/// line feed before that.
pub proof fn lemma_line_end(text: Seq<char>, from: int)
    requires
        0 <= from <= text.len(),
    ensures
        from <= line_end(text, from) <= text.len(),
        forall|j: int| from <= j < line_end(text, from) ==> #[trigger] text[j] != '\n',
        line_end(text, from) < text.len() ==> text[line_end(text, from)] == '\n',
    decreases text.len() - from,
{
    if from < text.len() && text[from] != '\n' {
        lemma_line_end(text, from + 1);
    }
}

/// Splitting keeps the content: no line holds a line feed, and the lines,
/// each followed by a line feed, give the text back, with a line feed
/// added at its end if it had none.
pub proof fn lemma_split_lines(text: Seq<char>, from: int)
    requires
        0 <= from <= text.len(),
    ensures
        forall|i: int, j: int|
            0 <= i < split_lines(text, from).len() && 0 <= j < split_lines(text, from)[i].len()
                ==> #[trigger] split_lines(text, from)[i][j] != '\n',
        split_lines(text, from).map_values(|l: Seq<char>| l.push('\n')).flatten() == if from
            < text.len() && text.last() != '\n' {
            text.skip(from).push('\n')
        } else {
            text.skip(from)
        },
    decreases text.len() - from,
{
    let with_feed = |l: Seq<char>| l.push('\n');
    let lines = split_lines(text, from);
    if from < text.len() {
        let end = line_end(text, from);
        lemma_line_end(text, from);
        if end >= text.len() {
            assert(lines =~= seq![text.skip(from)]);
            assert(lines.map_values(with_feed) =~= seq![text.skip(from).push('\n')]);
            lines.map_values(with_feed).lemma_flatten_one_element();
            assert(text.last() == text[text.len() - 1]);
        } else {
            let rest = split_lines(text, end + 1);
            lemma_split_lines(text, end + 1);
            assert(lines =~= seq![text.subrange(from, end)] + rest);
            assert forall|i: int, j: int|
                0 <= i < lines.len() && 0 <= j < lines[i].len() implies #[trigger] lines[i][j]
                != '\n' by {
                if i > 0 {
                    assert(lines[i] == rest[i - 1]);
                }
            }
            assert(lines.map_values(with_feed).drop_first() =~= rest.map_values(with_feed));
            assert(lines.map_values(with_feed).first() == text.subrange(from, end).push('\n'));
            assert(text.subrange(from, end).push('\n') + text.skip(end + 1) =~= text.skip(from));
            if end + 1 < text.len() && text.last() != '\n' {
                assert(text.subrange(from, end).push('\n') + text.skip(end + 1).push('\n')
                    =~= text.skip(from).push('\n'));
            }
        }
    } else {
        assert(text.skip(from) =~= Seq::empty());
        assert(lines.map_values(with_feed) =~= Seq::empty());
    }
}

/// `N` lines give exactly `N` body lines, in order: each is the indent, the
/// line right-trimmed, and a line feed.
pub proof fn lemma_one_body_line_per_line(lines: Seq<Seq<char>>)
    ensures
        indented_lines(lines) == lines.map_values(
            |l: Seq<char>| indented_line(trim_end(l)),
        ).flatten(),
    decreases lines.len(),
{
    let each = |l: Seq<char>| indented_line(trim_end(l));
    if lines.len() > 0 {
        lemma_one_body_line_per_line(lines.drop_first());
        assert(lines.map_values(each).drop_first() =~= lines.drop_first().map_values(each));
        assert(lines.map_values(each).first() == indented_line(trim_end(lines[0])));
    }
}

/// A file that is not shown as text leaves nothing of its bytes in its
/// body but their number.
pub proof fn lemma_summary_hides_bytes(
    name: Seq<char>,
    media_type: Seq<char>,
    bytes: Seq<u8>,
    other: Seq<u8>,
)
    requires
        bytes.len() == other.len(),
    ensures
        file_body(FormatView::Binary { name, media_type }, bytes) == file_body(
            FormatView::Binary { name, media_type },
            other,
        ),
{
}

/// With only the outline wanted, the report is the outline section of a
/// directory and nothing at all for a single file: no file's block is in it,
/// and no file's content can make it fail.
pub proof fn lemma_structure_only_has_no_blocks(cfg: Path2Md, tree: Entry)
    requires
        cfg.structure_only,
    ensures
        cfg.report(tree) == match visits(cfg, tree, Seq::empty(), 0, true) {
            Err(f) => Err::<Seq<char>, ReportFailure>(ReportFailure::FailedToWriteStructure(f)),
            Ok(seen) => Ok(
                if tree.is_dir() {
                    section(seen)
                } else {
                    Seq::empty()
                },
            ),
        },
{
}

} // verus!
