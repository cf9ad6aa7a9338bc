//! Rendering: the outline of the visited nodes, the block of each file, and
//! the whole report.

use vstd::prelude::*;
use vstd::string::*;
use vstd::utf8::decode_utf8;
use vstd::utf8::valid_utf8;
use crate::entry::Entry;
use crate::format::classified;
use crate::format::detect_format;
use crate::format::sniffed;
use crate::format::FormatView;
use crate::format::RenderedFormat;
use crate::text::chars_of;
use crate::text::decimal;
use crate::text::indent;
use crate::text::indented_line;
use crate::text::indented_lines;
use crate::text::is_prefix;
use crate::text::push_char;
use crate::text::push_decimal;
use crate::text::push_indented_lines;
use crate::text::split_lines;
use crate::walk::reached;
use crate::walk::visit_views;
use crate::walk::visits;
use crate::walk::Path2Md;
use crate::walk::Visit;
use crate::walk::WalkFailure;
use crate::walk::WalkNode;
use crate::walk::WalkPathError;

verus! {

/// Why a file's block could not be written.
#[derive(Debug)]
pub enum Path2MdWriteFileContentsError {
    /// The file is textual by format but its bytes are no valid UTF-8, so no
    /// line of it can be written. Holds the file's header.
    FailedToWrite(String),
}

/// Why no report was written.
#[derive(Debug)]
pub enum Path2MdWriteError {
    /// A file's block could not be written.
    FailedToWriteFileContents(Path2MdWriteFileContentsError),
    /// The walk that the outline follows stopped at a node.
    FailedToWriteStructure(WalkPathError),
}

/// The mathematical value of a [`Path2MdWriteError`].
pub enum ReportFailure {
    /// Holds the header of the file whose block failed.
    FailedToWriteFileContents(Seq<char>),
    FailedToWriteStructure(WalkFailure),
}

impl View for Path2MdWriteFileContentsError {
    type V = Seq<char>;

    open spec fn view(&self) -> Seq<char> {
        match self {
            Path2MdWriteFileContentsError::FailedToWrite(header) => header@,
        }
    }
}

impl View for Path2MdWriteError {
    type V = ReportFailure;

    open spec fn view(&self) -> ReportFailure {
        match self {
            Path2MdWriteError::FailedToWriteFileContents(e) => {
                ReportFailure::FailedToWriteFileContents(e@)
            },
            Path2MdWriteError::FailedToWriteStructure(e) => ReportFailure::FailedToWriteStructure(
                e@,
            ),
        }
    }
}

/// `n` continuation markers.
pub open spec fn bars(n: nat) -> Seq<char>
    decreases n,
{
    if n == 0 {
        Seq::empty()
    } else {
        bars((n - 1) as nat) + seq!['│', ' ']
    }
}

/// The branch glyph: `└─` for the last surviving sibling, `├─` for any other.
pub open spec fn branch(is_last: bool) -> Seq<char> {
    if is_last {
        seq!['└', '─']
    } else {
        seq!['├', '─']
    }
}

/// One line of the outline. The root, at depth 0, has no glyph; a node at
/// depth `d > 0` has `d - 1` continuation markers and its branch glyph.
pub open spec fn structure_line(name: Seq<char>, depth: nat, is_last: bool) -> Seq<char> {
    if depth == 0 {
        indent() + name + seq!['\n']
    } else {
        indent() + bars((depth - 1) as nat) + branch(is_last) + name + seq!['\n']
    }
}

/// The name under which a visited node appears in the outline: `.` for the
/// root, its own name otherwise.
pub open spec fn shown_name(v: Visit) -> Seq<char> {
    if v.depth == 0 {
        seq!['.']
    } else {
        v.entry.label()
    }
}

/// The outline of the visited nodes, one line each.
pub open spec fn structure_text(nodes: Seq<Visit>) -> Seq<char>
    decreases nodes.len(),
{
    if nodes.len() == 0 {
        Seq::empty()
    } else {
        structure_line(shown_name(nodes[0]), nodes[0].depth, nodes[0].is_last) + structure_text(
            nodes.drop_first(),
        )
    }
}

/// The two lines that stand for a file that is not shown as text.
pub open spec fn summary(name: Seq<char>, media_type: Seq<char>, size: nat) -> Seq<char> {
    indented_line(name + seq![' ', '('] + media_type + seq![')']) + indented_line(
        seq!['.', '.', '.', ' '] + decimal(size) + seq![' ', 'b', 'y', 't', 'e', 's', ' ', '.', '.', '.'],
    )
}

/// A file's body: its lines if it is shown as text, which needs valid
/// UTF-8, else its summary.
pub open spec fn file_body(format: FormatView, bytes: Seq<u8>) -> Option<Seq<char>> {
    match format {
        FormatView::PlainText => if valid_utf8(bytes) {
            Some(indented_lines(split_lines(decode_utf8(bytes), 0)))
        } else {
            None
        },
        FormatView::Binary { name, media_type } => Some(summary(name, media_type, bytes.len())),
    }
}

/// A file's block: header line, blank line, body, two blank lines.
pub open spec fn file_block(header: Seq<char>, body: Seq<char>) -> Seq<char> {
    header + seq!['\n', '\n'] + body + seq!['\n', '\n']
}

/// `written` followed by what is still to come, unless that fails.
pub open spec fn then_text(written: Seq<char>, rest: Result<Seq<char>, Seq<char>>) -> Result<
    Seq<char>,
    Seq<char>,
> {
    match rest {
        Ok(t) => Ok(written + t),
        Err(p) => Err(p),
    }
}

/// The heading of the outline section.
pub open spec fn heading() -> Seq<char> {
    "# Directory Structure"@
}

/// The outline section: heading, blank line, outline, two blank lines.
pub open spec fn section(nodes: Seq<Visit>) -> Seq<char> {
    heading() + seq!['\n', '\n'] + structure_text(nodes) + seq!['\n', '\n']
}

/// Decodes bytes as UTF-8 with `core::str::from_utf8`, which succeeds
/// exactly on valid UTF-8 and then gives the text that the bytes encode.
#[verifier::external_body]
pub(crate) fn decode_text<'a>(bytes: &'a [u8]) -> (r: Option<&'a str>)
    ensures
        r is Some <==> valid_utf8(bytes@),
        r matches Some(s) ==> s@ == decode_utf8(bytes@),
{
    core::str::from_utf8(bytes).ok()
}

/// Appends one line of the outline.
pub fn write_structure_line(name: &str, depth: usize, is_last: bool, out: &mut String)
    ensures
        final(out)@ == old(out)@ + structure_line(name@, depth as nat, is_last),
{
    let ghost start = out@;
    out.append("    ");
    proof {
        reveal_strlit("    ");
        assert(out@ =~= start + indent());
    }
    if depth != 0 {
        let mut i: usize = 1;
        while i < depth
            invariant
                1 <= i <= depth,
                out@ == start + indent() + bars((i - 1) as nat),
            decreases depth - i,
        {
            out.append("│ ");
            proof {
                reveal_strlit("│ ");
                assert(out@ =~= start + indent() + bars(i as nat));
            }
            i += 1;
        }
        if is_last {
            out.append("└─");
        } else {
            out.append("├─");
        }
        proof {
            reveal_strlit("└─");
            reveal_strlit("├─");
            assert(out@ =~= start + indent() + bars((depth - 1) as nat) + branch(is_last));
        }
    }
    out.append(name);
    push_char(out, '\n');
    assert(out@ =~= start + structure_line(name@, depth as nat, is_last));
}

/// Appends the block of one file under `header`, its body shown as `format`
/// says. Fails, appending nothing, when a textual file is no valid UTF-8.
pub fn render_file(header: &str, format: &RenderedFormat, bytes: &[u8], out: &mut String) -> (r:
    Result<(), Path2MdWriteFileContentsError>)
    ensures
        match r {
            Ok(()) => file_body(format@, bytes@) matches Some(body) && final(out)@ == old(out)@
                + file_block(header@, body),
            Err(e) => file_body(format@, bytes@) is None && final(out)@ == old(out)@ && e@
                == header@,
        },
{
    let ghost start = out@;
    match format {
        RenderedFormat::PlainText => {
            match decode_text(bytes) {
                None => Err(Path2MdWriteFileContentsError::FailedToWrite(String::from_str(header))),
                Some(text) => {
                    let chars = chars_of(text);
                    out.append(header);
                    push_char(out, '\n');
                    push_char(out, '\n');
                    push_indented_lines(out, &chars);
                    push_char(out, '\n');
                    push_char(out, '\n');
                    assert(out@ =~= start + file_block(
                        header@,
                        indented_lines(split_lines(decode_utf8(bytes@), 0)),
                    ));
                    Ok(())
                },
            }
        },
        RenderedFormat::Binary { name, media_type } => {
            out.append(header);
            push_char(out, '\n');
            push_char(out, '\n');
            out.append("    ");
            out.append(name.as_str());
            out.append(" (");
            out.append(media_type.as_str());
            out.append(")");
            push_char(out, '\n');
            out.append("    ");
            out.append("... ");
            push_decimal(out, bytes.len());
            out.append(" bytes ...");
            push_char(out, '\n');
            push_char(out, '\n');
            push_char(out, '\n');
            proof {
                reveal_strlit("    ");
                reveal_strlit(" (");
                reveal_strlit(")");
                reveal_strlit("... ");
                reveal_strlit(" bytes ...");
                assert("    "@ =~= indent());
                assert(" ("@ =~= seq![' ', '(']);
                assert(")"@ =~= seq![')']);
                assert("... "@ =~= seq!['.', '.', '.', ' ']);
                assert(" bytes ..."@ =~= seq![' ', 'b', 'y', 't', 'e', 's', ' ', '.', '.', '.']);
                assert(out@ =~= start + file_block(
                    header@,
                    summary(name@, media_type@, bytes@.len()),
                ));
            }
            Ok(())
        },
    }
}

impl Path2Md {
    /// The block of the file at `path` with content `bytes`, or `None` where
    /// it cannot be written.
    pub open spec fn file_text(&self, path: Seq<char>, bytes: Seq<u8>) -> Option<Seq<char>> {
        match file_body(classified(sniffed(bytes).0, sniffed(bytes).1), bytes) {
            Some(body) => Some(file_block(self.header_of(path), body)),
            None => None,
        }
    }

    /// The blocks of the files among `nodes`, in order, or the header of the
    /// first file whose block cannot be written.
    pub open spec fn contents_text(&self, nodes: Seq<Visit>) -> Result<Seq<char>, Seq<char>>
        decreases nodes.len(),
    {
        if nodes.len() == 0 {
            Ok(Seq::empty())
        } else {
            match nodes[0].entry {
                Entry::File { bytes, .. } => match self.file_text(nodes[0].path, bytes@) {
                    Some(block) => then_text(block, self.contents_text(nodes.drop_first())),
                    None => Err(self.header_of(nodes[0].path)),
                },
                _ => self.contents_text(nodes.drop_first()),
            }
        }
    }

    /// The whole report on `tree`. A directory gets the outline section;
    /// unless only the outline is wanted, the blocks of the files follow.
    pub open spec fn report(&self, tree: Entry) -> Result<Seq<char>, ReportFailure> {
        match visits(*self, tree, Seq::empty(), 0, true) {
            Err(f) => Err(ReportFailure::FailedToWriteStructure(f)),
            Ok(nodes) => {
                let head = if tree.is_dir() {
                    section(nodes)
                } else {
                    Seq::empty()
                };
                if self.structure_only {
                    Ok(head)
                } else {
                    match self.contents_text(nodes) {
                        Ok(blocks) => Ok(head + blocks),
                        Err(p) => Err(ReportFailure::FailedToWriteFileContents(p)),
                    }
                }
            },
        }
    }

    /// The blocks that are written for `nodes`: those of the files before
    /// the first one whose block cannot be written, or of all files.
    pub open spec fn contents_written(&self, nodes: Seq<Visit>) -> Seq<char>
        decreases nodes.len(),
    {
        if nodes.len() == 0 {
            Seq::empty()
        } else {
            match nodes[0].entry {
                Entry::File { bytes, .. } => match self.file_text(nodes[0].path, bytes@) {
                    Some(block) => block + self.contents_written(nodes.drop_first()),
                    None => Seq::empty(),
                },
                _ => self.contents_written(nodes.drop_first()),
            }
        }
    }

    /// What is written for the nodes that a walk visited, whether the
    /// report succeeds or not. With `with_outline`, the heading and the
    /// outline of the nodes come first, closed by two blank lines only if
    /// the walk succeeded (`walked`). After a walk that succeeded, and unless
    /// only the outline is wanted, the blocks follow, up to the first that
    /// fails. Nothing written is taken back.
    pub open spec fn written_for(&self, with_outline: bool, nodes: Seq<Visit>, walked: bool) -> Seq<
        char,
    > {
        let head = if with_outline {
            heading() + seq!['\n', '\n'] + structure_text(nodes) + if walked {
                seq!['\n', '\n']
            } else {
                Seq::empty()
            }
        } else {
            Seq::empty()
        };
        if !walked || self.structure_only {
            head
        } else {
            head + self.contents_written(nodes)
        }
    }

    /// How the report ends for the nodes that a walk visited and the
    /// failure, if any, that stopped the walk.
    pub open spec fn ending_for(&self, nodes: Seq<Visit>, stopped: Option<WalkFailure>) -> Option<
        ReportFailure,
    > {
        match stopped {
            Some(f) => Some(ReportFailure::FailedToWriteStructure(f)),
            None => if self.structure_only {
                None
            } else {
                match self.contents_text(nodes) {
                    Ok(_) => None,
                    Err(p) => Some(ReportFailure::FailedToWriteFileContents(p)),
                }
            },
        }
    }

    /// What is written for `tree`, whether the report succeeds or not: the
    /// whole report, or the report up to the node that stops the walk or up
    /// to the file whose block fails.
    pub open spec fn written(&self, tree: Entry) -> Seq<char> {
        self.written_for(
            tree.is_dir(),
            reached(*self, tree, Seq::empty(), 0, true),
            visits(*self, tree, Seq::empty(), 0, true) is Ok,
        )
    }

    /// Appends the block of the file at `path`, whose content is `bytes`.
    /// How the body is shown follows from sniffing the bytes.
    pub fn write_file_contents(&self, path: &str, bytes: &[u8], out: &mut String) -> (r: Result<
        (),
        Path2MdWriteFileContentsError,
    >)
        ensures
            match r {
                Ok(()) => self.file_text(path@, bytes@) matches Some(block) && final(out)@
                    == old(out)@ + block,
                Err(e) => self.file_text(path@, bytes@) is None && final(out)@ == old(out)@ && e@
                    == self.header_of(path@),
            },
    {
        let format = detect_format(bytes);
        if path.is_empty() {
            render_file(self.root.as_str(), &format, bytes, out)
        } else {
            render_file(path, &format, bytes, out)
        }
    }

    /// Appends the outline of `nodes`.
    pub fn write_structure(&self, nodes: &Vec<WalkNode>, out: &mut String)
        ensures
            final(out)@ == old(out)@ + structure_text(visit_views(nodes@)),
    {
        let ghost all = visit_views(nodes@);
        let mut k: usize = 0;
        assert(all.skip(0) =~= all);
        while k < nodes.len()
            invariant
                k <= nodes@.len(),
                all == visit_views(nodes@),
                out@ + structure_text(all.skip(k as int)) == old(out)@ + structure_text(all),
            decreases nodes@.len() - k,
        {
            let node = &nodes[k];
            let ghost before = out@;
            if node.depth == 0 {
                write_structure_line(".", node.depth, node.is_last, out);
            } else {
                write_structure_line(node.entry.name(), node.depth, node.is_last, out);
            }
            proof {
                reveal_strlit(".");
                assert("."@ =~= seq!['.']);
                assert(all.skip(k as int)[0] == node@);
                assert(all.skip(k as int).drop_first() =~= all.skip(k + 1));
                assert(before + structure_text(all.skip(k as int)) =~= out@ + structure_text(
                    all.skip(k + 1),
                ));
            }
            k += 1;
        }
        assert(out@ + Seq::<char>::empty() =~= out@);
    }

    /// Appends the blocks of the files among `nodes`, in order, up to the
    /// first one that cannot be written.
    pub fn write_contents(&self, nodes: &Vec<WalkNode>, out: &mut String) -> (r: Result<
        (),
        Path2MdWriteFileContentsError,
    >)
        ensures
            final(out)@ == old(out)@ + self.contents_written(visit_views(nodes@)),
            match r {
                Ok(()) => self.contents_text(visit_views(nodes@)) == Ok::<Seq<char>, Seq<char>>(
                    self.contents_written(visit_views(nodes@)),
                ),
                Err(e) => self.contents_text(visit_views(nodes@)) == Err::<Seq<char>, Seq<char>>(
                    e@,
                ),
            },
    {
        let ghost all = visit_views(nodes@);
        let ghost start = out@;
        let ghost written = Seq::<char>::empty();
        let mut k: usize = 0;
        assert(all.skip(0) =~= all);
        assert(start + written =~= start);
        assert(written + self.contents_written(all) =~= self.contents_written(all));
        while k < nodes.len()
            invariant
                k <= nodes@.len(),
                all == visit_views(nodes@),
                start == old(out)@,
                out@ == start + written,
                self.contents_text(all) == then_text(
                    written,
                    self.contents_text(all.skip(k as int)),
                ),
                self.contents_written(all) == written + self.contents_written(all.skip(k as int)),
            decreases nodes@.len() - k,
        {
            let node = &nodes[k];
            let ghost rest = self.contents_text(all.skip(k + 1));
            let ghost rest_written = self.contents_written(all.skip(k + 1));
            proof {
                assert(all.skip(k as int)[0] == node@);
                assert(all.skip(k as int).drop_first() =~= all.skip(k + 1));
            }
            match node.entry {
                Entry::File { bytes, .. } => {
                    match self.write_file_contents(node.path.as_str(), bytes.as_slice(), out) {
                        Err(e) => {
                            assert(written + Seq::<char>::empty() =~= written);
                            return Err(e);
                        },
                        Ok(()) => {
                            proof {
                                let block = self.file_text(node.path@, bytes@)->0;
                                match rest {
                                    Ok(t) => {
                                        assert(written + (block + t) =~= (written + block) + t);
                                    },
                                    Err(_) => {},
                                }
                                assert(written + (block + rest_written) =~= (written + block)
                                    + rest_written);
                                written = written + block;
                                assert(out@ =~= start + written);
                            }
                        },
                    }
                },
                _ => {},
            }
            k += 1;
        }
        assert(written + Seq::<char>::empty() =~= written);
        Ok(())
    }

    /// Where every block can be written, the blocks written are all the
    /// blocks.
    pub proof fn lemma_blocks_written(&self, nodes: Seq<Visit>)
        ensures
            self.contents_text(nodes) matches Ok(blocks) ==> blocks == self.contents_written(
                nodes,
            ),
        decreases nodes.len(),
    {
        if nodes.len() > 0 {
            self.lemma_blocks_written(nodes.drop_first());
        }
    }

    /// Appends the report for the outcome of a walk: `nodes` are the nodes
    /// visited and `outcome` says whether a failure stopped the walk. Fails
    /// with that failure, or on the first file whose block cannot be
    /// written; what was written before stays in `out`.
    pub fn write_walked(
        &self,
        with_outline: bool,
        nodes: &Vec<WalkNode>,
        outcome: Result<(), WalkPathError>,
        out: &mut String,
    ) -> (r: Result<(), Path2MdWriteError>)
        ensures
            final(out)@ == old(out)@ + self.written_for(
                with_outline,
                visit_views(nodes@),
                outcome is Ok,
            ),
            match r {
                Ok(()) => self.ending_for(
                    visit_views(nodes@),
                    match outcome {
                        Ok(()) => None,
                        Err(f) => Some(f@),
                    },
                ) is None,
                Err(e) => self.ending_for(
                    visit_views(nodes@),
                    match outcome {
                        Ok(()) => None,
                        Err(f) => Some(f@),
                    },
                ) == Some(e@),
            },
    {
        let ghost start = out@;
        let ghost seen = visit_views(nodes@);
        let ghost head = Seq::<char>::empty();
        if with_outline {
            out.append("# Directory Structure");
            push_char(out, '\n');
            push_char(out, '\n');
            self.write_structure(nodes, out);
            proof {
                head = heading() + seq!['\n', '\n'] + structure_text(seen);
            }
        }
        assert(out@ =~= start + head);
        match outcome {
            Err(e) => {
                assert(head + Seq::<char>::empty() =~= head);
                return Err(Path2MdWriteError::FailedToWriteStructure(e));
            },
            Ok(()) => {},
        }
        if with_outline {
            push_char(out, '\n');
            push_char(out, '\n');
            proof {
                head = head + seq!['\n', '\n'];
            }
        }
        assert(out@ =~= start + head);
        if !self.structure_only {
            let r = self.write_contents(nodes, out);
            assert(out@ =~= start + (head + self.contents_written(seen)));
            match r {
                Ok(()) => {},
                Err(e) => {
                    return Err(Path2MdWriteError::FailedToWriteFileContents(e));
                },
            }
        }
        Ok(())
    }

    /// Appends the report on `tree` to `out`. Fails on the first node that
    /// stops the walk, or on the first file whose block cannot be written;
    /// what was written before that stays in `out`. With rules, and a
    /// backslash in a rule or a name, which nodes are excluded follows the
    /// platform's matching, and only so much is stated here: what `out` held
    /// is kept. Without rules the report is stated for every tree.
    /// What is written for the nodes that were visited is stated by
    /// [`Path2Md::write_walked`].
    pub fn write(&self, tree: &Entry, out: &mut String) -> (r: Result<(), Path2MdWriteError>)
        ensures
            is_prefix(old(out)@, final(out)@),
            self.settled(*tree, Seq::empty()) ==> final(out)@ == old(out)@ + self.written(*tree),
            self.settled(*tree, Seq::empty()) ==> match r {
                Ok(()) => self.report(*tree) == Ok::<Seq<char>, ReportFailure>(
                    self.written(*tree),
                ),
                Err(e) => self.report(*tree) == Err::<Seq<char>, ReportFailure>(e@),
            },
    {
        let ghost start = out@;
        let (nodes, outcome) = self.walk(tree);
        let r = self.write_walked(tree.is_directory(), &nodes, outcome, out);
        proof {
            assert(out@.take(start.len() as int) =~= start);
            self.lemma_blocks_written(visit_views(nodes@));
        }
        r
    }
}

} // verus!
