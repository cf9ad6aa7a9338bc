//! Character-level helpers: whitespace, line splitting, decimal numbers and
//! prefix stripping.

use vstd::prelude::*;
use vstd::string::*;
use vstd::std_specs::iter::IteratorSpec;

verus! {

broadcast use vstd::string::group_string_axioms;

/// The characters with the Unicode `White_Space` property.
pub open spec fn is_space(c: char) -> bool {
    let u = c as u32;
    (0x09 <= u && u <= 0x0D) || u == 0x20 || u == 0x85 || u == 0xA0 || u == 0x1680 || (0x2000 <= u
        && u <= 0x200A) || u == 0x2028 || u == 0x2029 || u == 0x202F || u == 0x205F || u == 0x3000
}

/// Length of `line` once its trailing whitespace is removed.
pub open spec fn trimmed_len(line: Seq<char>) -> nat
    decreases line.len(),
{
    if line.len() == 0 {
        0
    } else if is_space(line.last()) {
        trimmed_len(line.drop_last())
    } else {
        line.len()
    }
}

/// `line` without its trailing whitespace.
pub open spec fn trim_end(line: Seq<char>) -> Seq<char> {
    line.take(trimmed_len(line) as int)
}

/// Index of the first line feed of `text` at or after `from`, or the length
/// of `text` if there is none.
pub open spec fn line_end(text: Seq<char>, from: int) -> int
    decreases text.len() - from,
{
    if from < 0 || from >= text.len() {
        text.len() as int
    } else if text[from] == '\n' {
        from
    } else {
        line_end(text, from + 1)
    }
}

/// The lines of `text` from index `from` on. A line ends at a line feed or
/// at the end of the text; a final line feed opens no further line.
pub open spec fn split_lines(text: Seq<char>, from: int) -> Seq<Seq<char>>
    decreases text.len() - from,
{
    if from < 0 || from >= text.len() {
        Seq::empty()
    } else {
        let end = line_end(text, from);
        if end < from || end >= text.len() {
            seq![text.skip(from)]
        } else {
            seq![text.subrange(from, end)] + split_lines(text, end + 1)
        }
    }
}

/// The indent that starts every body line.
pub open spec fn indent() -> Seq<char> {
    seq![' ', ' ', ' ', ' ']
}

/// One output line: indent, content, line feed.
pub open spec fn indented_line(content: Seq<char>) -> Seq<char> {
    indent() + content + seq!['\n']
}

/// Every line right-trimmed, indented and ended by a line feed.
pub open spec fn indented_lines(lines: Seq<Seq<char>>) -> Seq<char>
    decreases lines.len(),
{
    if lines.len() == 0 {
        Seq::empty()
    } else {
        indented_line(trim_end(lines[0])) + indented_lines(lines.drop_first())
    }
}

/// The decimal digits of `n`, most significant first.
pub open spec fn decimal(n: nat) -> Seq<char>
    decreases n,
{
    if n < 10 {
        seq![digit(n)]
    } else {
        decimal(n / 10).push(digit(n % 10))
    }
}

/// The character of a single decimal digit.
pub open spec fn digit(d: nat) -> char {
    if d == 0 {
        '0'
    } else if d == 1 {
        '1'
    } else if d == 2 {
        '2'
    } else if d == 3 {
        '3'
    } else if d == 4 {
        '4'
    } else if d == 5 {
        '5'
    } else if d == 6 {
        '6'
    } else if d == 7 {
        '7'
    } else if d == 8 {
        '8'
    } else {
        '9'
    }
}

/// Appends one character to a string: `String::push`, which adds `c` after
/// the characters already there.
#[verifier::external_body]
pub(crate) fn push_char(out: &mut String, c: char)
    ensures
        final(out)@ == old(out)@.push(c),
{
    out.push(c)
}

/// Whether `c` is Unicode whitespace.
pub fn is_whitespace(c: char) -> (r: bool)
    ensures
        r == is_space(c),
{
    let u: u32 = c as u32;
    (0x09 <= u && u <= 0x0D) || u == 0x20 || u == 0x85 || u == 0xA0 || u == 0x1680 || (0x2000 <= u
        && u <= 0x200A) || u == 0x2028 || u == 0x2029 || u == 0x202F || u == 0x205F || u == 0x3000
}

fn digit_char(d: usize) -> (c: char)
    requires
        d < 10,
    ensures
        c == digit(d as nat),
{
    if d == 0 {
        '0'
    } else if d == 1 {
        '1'
    } else if d == 2 {
        '2'
    } else if d == 3 {
        '3'
    } else if d == 4 {
        '4'
    } else if d == 5 {
        '5'
    } else if d == 6 {
        '6'
    } else if d == 7 {
        '7'
    } else if d == 8 {
        '8'
    } else {
        '9'
    }
}

/// Appends the decimal digits of `n`.
pub fn push_decimal(out: &mut String, n: usize)
    ensures
        final(out)@ == old(out)@ + decimal(n as nat),
    decreases n,
{
    if n < 10 {
        push_char(out, digit_char(n));
    } else {
        push_decimal(out, n / 10);
        push_char(out, digit_char(n % 10));
    }
}

/// The characters of `s`, in order.
pub fn chars_of(s: &str) -> (v: Vec<char>)
    ensures
        v@ == s@,
{
    let mut v: Vec<char> = Vec::new();
    let mut it = s.chars();
    loop
        invariant
            it.remaining() == s@.skip(v@.len() as int),
            v@ == s@.take(v@.len() as int),
            v@.len() <= s@.len(),
        decreases s@.len() - v@.len(),
    {
        match it.next() {
            Some(c) => {
                v.push(c);
                assert(v@ =~= s@.take(v@.len() as int));
                assert(it.remaining() =~= s@.skip(v@.len() as int));
            },
            None => {
                assert(v@ =~= s@);
                return v;
            },
        }
    }
}

/// Appends `text[from..to]`.
pub fn push_range(out: &mut String, text: &Vec<char>, from: usize, to: usize)
    requires
        from <= to <= text@.len(),
    ensures
        final(out)@ == old(out)@ + text@.subrange(from as int, to as int),
{
    let mut i: usize = from;
    while i < to
        invariant
            from <= i <= to <= text@.len(),
            out@ == old(out)@ + text@.subrange(from as int, i as int),
        decreases to - i,
    {
        push_char(out, text[i]);
        i += 1;
        assert(out@ =~= old(out)@ + text@.subrange(from as int, i as int));
    }
}

/// Appends every line of `text`, right-trimmed, indented and ended by a
/// line feed.
pub fn push_indented_lines(out: &mut String, text: &Vec<char>)
    ensures
        final(out)@ == old(out)@ + indented_lines(split_lines(text@, 0)),
{
    let n = text.len();
    let mut from: usize = 0;
    while from < n
        invariant
            from <= n,
            n == text@.len(),
            out@ + indented_lines(split_lines(text@, from as int)) == old(out)@ + indented_lines(
                split_lines(text@, 0),
            ),
        decreases n - from,
    {
        let mut end: usize = from;
        while end < n && text[end] != '\n'
            invariant
                from <= end <= n,
                n == text@.len(),
                line_end(text@, from as int) == line_end(text@, end as int),
            decreases n - end,
        {
            end += 1;
        }
        let mut k: usize = end;
        while k > from && is_whitespace(text[k - 1])
            invariant
                from <= k <= end <= n,
                n == text@.len(),
                trimmed_len(text@.subrange(from as int, end as int)) == trimmed_len(
                    text@.subrange(from as int, k as int),
                ),
            decreases k,
        {
            assert(text@.subrange(from as int, k as int).drop_last() =~= text@.subrange(
                from as int,
                k - 1,
            ));
            k -= 1;
        }
        let ghost before = out@;
        let ghost line = text@.subrange(from as int, end as int);
        out.append("    ");
        push_range(out, text, from, k);
        push_char(out, '\n');
        let next: usize = if end == n {
            n
        } else {
            end + 1
        };
        proof {
            reveal_strlit("    ");
            assert("    "@ =~= indent());
            assert(trimmed_len(text@.subrange(from as int, k as int)) == k - from);
            assert(trim_end(line) =~= text@.subrange(from as int, k as int));
            assert(text@.skip(from as int) =~= text@.subrange(from as int, n as int));
            let lines = split_lines(text@, from as int);
            assert(lines[0] == line);
            assert(lines.drop_first() =~= split_lines(text@, next as int));
            assert(out@ =~= before + indented_line(trim_end(line)));
            assert(before + indented_lines(lines) =~= out@ + indented_lines(
                split_lines(text@, next as int),
            ));
        }
        from = next;
    }
    assert(out@ + Seq::<char>::empty() =~= out@);
}

/// Why a path could not be shown relative to the root.
#[derive(Debug)]
pub enum StripRootError {
    /// The second path does not lie under the first: `(root, path)`.
    PrefixDoesntMatch(String, String),
}

/// Whether `prefix` is an initial part of `s`.
pub open spec fn is_prefix(prefix: Seq<char>, s: Seq<char>) -> bool {
    prefix.len() <= s.len() && s.take(prefix.len() as int) == prefix
}

/// `path` relative to `root`: `None` unless `path` is `root` itself or
/// continues it at a `/`; the separator is not part of the result. Every
/// path lies under the empty root.
pub open spec fn stripped(root: Seq<char>, path: Seq<char>) -> Option<Seq<char>> {
    if !is_prefix(root, path) {
        None
    } else if root.len() == 0 || root.last() == '/' || path.len() == root.len() {
        Some(path.skip(root.len() as int))
    } else if path[root.len() as int] == '/' {
        Some(path.skip(root.len() as int + 1))
    } else {
        None
    }
}

/// Shows `path` relative to `root`. Fails, naming both, when `path` does
/// not lie under `root`.
pub fn strip_root(root: &str, path: &str) -> (r: Result<String, StripRootError>)
    ensures
        match r {
            Ok(rest) => stripped(root@, path@) == Some(rest@),
            Err(StripRootError::PrefixDoesntMatch(a, b)) => stripped(root@, path@) is None && a@
                == root@ && b@ == path@,
        },
{
    let r = chars_of(root);
    let p = chars_of(path);
    if r.len() > p.len() {
        return Err(
            StripRootError::PrefixDoesntMatch(String::from_str(root), String::from_str(path)),
        );
    }
    let mut i: usize = 0;
    while i < r.len()
        invariant
            i <= r@.len() <= p@.len(),
            r@ == root@,
            p@ == path@,
            p@.take(i as int) == r@.take(i as int),
        decreases r@.len() - i,
    {
        if r[i] != p[i] {
            proof {
                if is_prefix(root@, path@) {
                    assert(path@.take(root@.len() as int)[i as int] == path@[i as int]);
                }
            }
            return Err(
                StripRootError::PrefixDoesntMatch(String::from_str(root), String::from_str(path)),
            );
        }
        i += 1;
        assert(p@.take(i as int) =~= r@.take(i as int)) by {
            assert(p@.take(i as int) =~= p@.take(i - 1).push(p@[i - 1]));
            assert(r@.take(i as int) =~= r@.take(i - 1).push(r@[i - 1]));
        }
    }
    assert(r@.take(r@.len() as int) =~= r@);
    let n = r.len();
    let start: usize = if n == 0 || r[n - 1] == '/' || p.len() == n {
        n
    } else if p[n] == '/' {
        n + 1
    } else {
        return Err(
            StripRootError::PrefixDoesntMatch(String::from_str(root), String::from_str(path)),
        );
    };
    let mut rest = String::new();
    push_range(&mut rest, &p, start, p.len());
    assert(rest@ =~= path@.skip(start as int));
    Ok(rest)
}

} // verus!
