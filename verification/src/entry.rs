//! The tree that is rendered, and the order of siblings.

use vstd::prelude::*;
use vstd::string::*;
use vstd::utf8::encode_utf8;

verus! {

/// One node of the tree to render, as found on disk.
#[derive(Debug)]
pub enum Entry {
    /// A regular file with its whole content.
    File { name: String, bytes: Vec<u8> },
    /// A directory with its entries, in any order.
    Directory { name: String, children: Vec<Entry> },
    /// A directory whose listing could not be read, with the reason.
    UnreadableDirectory { name: String, cause: String },
    /// Anything that is neither a file nor a directory; a symlink is one.
    Unsupported { name: String },
}

impl Entry {
    /// The node's own name: the last segment of its path.
    pub open spec fn label(&self) -> Seq<char> {
        match self {
            Entry::File { name, .. } => name@,
            Entry::Directory { name, .. } => name@,
            Entry::UnreadableDirectory { name, .. } => name@,
            Entry::Unsupported { name } => name@,
        }
    }

    /// Whether the node is a directory, readable or not.
    pub open spec fn is_dir(&self) -> bool {
        self is Directory || self is UnreadableDirectory
    }

    /// The node's own name.
    pub fn name(&self) -> (r: &str)
        ensures
            r@ == self.label(),
    {
        match self {
            Entry::File { name, .. } => name.as_str(),
            Entry::Directory { name, .. } => name.as_str(),
            Entry::UnreadableDirectory { name, .. } => name.as_str(),
            Entry::Unsupported { name } => name.as_str(),
        }
    }

    /// Whether the node is a directory, readable or not.
    pub fn is_directory(&self) -> (r: bool)
        ensures
            r == self.is_dir(),
    {
        match self {
            Entry::Directory { .. } => true,
            Entry::UnreadableDirectory { .. } => true,
            _ => false,
        }
    }
}

/// Strict lexicographic order of two byte strings, decided from index `i`
/// on: a proper prefix comes first, otherwise the first differing byte
/// decides.
pub open spec fn bytes_before(a: Seq<u8>, b: Seq<u8>, i: int) -> bool
    decreases a.len() - i,
{
    if i < 0 || i >= b.len() {
        false
    } else if i >= a.len() {
        true
    } else if a[i] != b[i] {
        a[i] < b[i]
    } else {
        bytes_before(a, b, i + 1)
    }
}

/// The order in which siblings are visited: files before directories, and
/// within each group by the bytes of the name.
pub open spec fn comes_before(a: Entry, b: Entry) -> bool {
    (!a.is_dir() && b.is_dir()) || (a.is_dir() == b.is_dir() && bytes_before(
        encode_utf8(a.label()),
        encode_utf8(b.label()),
        0,
    ))
}

fn bytes_precede(a: &[u8], b: &[u8]) -> (r: bool)
    ensures
        r == bytes_before(a@, b@, 0),
{
    let mut i: usize = 0;
    loop
        invariant
            i <= a@.len(),
            i <= b@.len(),
            bytes_before(a@, b@, 0) == bytes_before(a@, b@, i as int),
        decreases a@.len() - i,
    {
        if i >= b.len() {
            return false;
        }
        if i >= a.len() {
            return true;
        }
        if a[i] != b[i] {
            return a[i] < b[i];
        }
        i += 1;
    }
}

/// Whether `a` is visited before `b` when both are entries of one directory.
pub fn sorts_before(a: &Entry, b: &Entry) -> (r: bool)
    ensures
        r == comes_before(*a, *b),
{
    let da = a.is_directory();
    let db = b.is_directory();
    if da != db {
        db
    } else {
        bytes_precede(a.name().as_bytes(), b.name().as_bytes())
    }
}

} // verus!
