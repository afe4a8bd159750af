//! What the panes show, decided apart from drawing: the labels of refs, the
//! kinds of diff lines, and what a click in the file list reports.
use vstd::prelude::*;

use crate::git::{diff_view, file_headers, lemma_file_headers_point_to_headers, DiffOutput};
use crate::text::{after_last, chars_of, push_range, push_str, starts_with, starts_with_in};

verus! {

/// Response from the file list widget.
#[derive(Debug, Clone, Copy)]
pub struct FileListResponse {
    /// Index of the file the user clicked, if any.
    pub clicked_file_index: Option<usize>,
}

/// What kind of ref a label shows.
#[derive(Debug, Clone, Copy, PartialEq, Eq, Structural)]
pub enum RefKind {
    /// A tag, shown as `<name>`.
    Tag,
    /// A remote branch (its name has a `/`), shown as `[name]`.
    RemoteBranch,
    /// A local branch, shown as `[name]`.
    LocalBranch,
}

/// A ref's label in the commit list.
#[derive(Debug, Clone)]
pub struct RefLabel {
    pub text: String,
    pub kind: RefKind,
}

/// `s` without every leading copy of `p` (`str::trim_start_matches`).
pub open spec fn strip_leading(s: Seq<char>, p: Seq<char>) -> Seq<char>
    decreases s.len(),
{
    if p.len() > 0 && starts_with(s, p) {
        strip_leading(s.subrange(p.len() as int, s.len() as int), p)
    } else {
        s
    }
}

/// The label text and kind of a ref name such as `tag: v1.0`, `origin/main`
/// or `main`.
pub open spec fn ref_label_of(name: Seq<char>) -> (Seq<char>, RefKind) {
    if starts_with(name, "tag: "@) {
        ("<"@ + strip_leading(name, "tag: "@) + ">"@, RefKind::Tag)
    } else if name.contains('/') {
        ("["@ + name + "]"@, RefKind::RemoteBranch)
    } else {
        ("["@ + name + "]"@, RefKind::LocalBranch)
    }
}

/// The label of a ref in the commit list: tags as `<tag>`, branches as
/// `[branch]`, remote branches told apart by the `/` in their name.
pub fn ref_label(ref_name: &str) -> (l: RefLabel)
    ensures
        (l.text@, l.kind) == ref_label_of(ref_name@),
{
    let cs = chars_of(ref_name);
    let n = cs.len();
    assert(cs@.subrange(0, n as int) =~= ref_name@);
    let tag = chars_of("tag: ");
    proof {
        reveal_strlit("tag: ");
    }
    assert(tag@.len() == 5);
    if starts_with_in(cs.as_slice(), 0, n, tag.as_slice()) {
        let mut a: usize = 0;
        while a < n && starts_with_in(cs.as_slice(), a, n, tag.as_slice())
            invariant
                a <= n == cs@.len(),
                tag@ == "tag: "@,
                "tag: "@.len() == 5,
                strip_leading(ref_name@, "tag: "@) == strip_leading(
                    cs@.subrange(a as int, n as int),
                    "tag: "@,
                ),
            decreases n - a,
        {
            assert(cs@.subrange(a as int, n as int).subrange(5, n - a) =~= cs@.subrange(
                a + 5,
                n as int,
            ));
            assert(starts_with(cs@.subrange(a as int, n as int), "tag: "@));
            a = a + tag.len();
        }
        let mut text = "<".to_owned();
        push_range(&mut text, cs.as_slice(), a, n);
        push_str(&mut text, ">");
        return RefLabel { text, kind: RefKind::Tag };
    }
    assert(!starts_with(ref_name@, "tag: "@));
    let mut text = "[".to_owned();
    push_str(&mut text, ref_name);
    push_str(&mut text, "]");
    assert(text@ == "["@ + ref_name@ + "]"@);
    let mut k: usize = 0;
    while k < n
        invariant
            k <= n == cs@.len(),
            cs@ == ref_name@,
            text@ == "["@ + ref_name@ + "]"@,
            !starts_with(ref_name@, "tag: "@),
            forall|i: int| 0 <= i < k ==> cs@[i] != '/',
        decreases n - k,
    {
        if cs[k] == '/' {
            assert(ref_name@.contains('/'));
            return RefLabel { text, kind: RefKind::RemoteBranch };
        }
        k = k + 1;
    }
    RefLabel { text, kind: RefKind::LocalBranch }
}

/// What a line of a unified diff is, for coloring.
#[derive(Debug, Clone, Copy, PartialEq, Eq, Structural)]
pub enum DiffLineKind {
    /// `diff --git ...`
    FileHeader,
    /// `--- ...` or `+++ ...`
    FileMarker,
    /// `@@ ...`
    Hunk,
    /// An added line (`+`).
    Added,
    /// A removed line (`-`).
    Removed,
    /// `index ...`, `new file ...` or `deleted file ...`
    Meta,
    /// Anything else.
    Context,
}

/// The kind of a diff line, by the first of these prefixes it starts with.
pub open spec fn diff_line_kind_of(line: Seq<char>) -> DiffLineKind {
    if starts_with(line, "diff --git"@) {
        DiffLineKind::FileHeader
    } else if starts_with(line, "---"@) || starts_with(line, "+++"@) {
        DiffLineKind::FileMarker
    } else if starts_with(line, "@@"@) {
        DiffLineKind::Hunk
    } else if starts_with(line, "+"@) {
        DiffLineKind::Added
    } else if starts_with(line, "-"@) {
        DiffLineKind::Removed
    } else if starts_with(line, "index "@) || starts_with(line, "new file"@) || starts_with(
        line,
        "deleted file"@,
    ) {
        DiffLineKind::Meta
    } else {
        DiffLineKind::Context
    }
}

/// Whether `line` starts with `p`.
fn line_starts_with(line: &Vec<char>, p: &str) -> (b: bool)
    ensures
        b == starts_with(line@, p@),
{
    let pc = chars_of(p);
    assert(line@.subrange(0, line@.len() as int) =~= line@);
    starts_with_in(line.as_slice(), 0, line.len(), pc.as_slice())
}

/// Classify a diff line for coloring: file headers, `---`/`+++` markers, hunk
/// headers, additions, deletions, metadata lines and context.
pub fn diff_line_kind(line: &str) -> (k: DiffLineKind)
    ensures
        k == diff_line_kind_of(line@),
{
    let cs = chars_of(line);
    if line_starts_with(&cs, "diff --git") {
        DiffLineKind::FileHeader
    } else if line_starts_with(&cs, "---") || line_starts_with(&cs, "+++") {
        DiffLineKind::FileMarker
    } else if line_starts_with(&cs, "@@") {
        DiffLineKind::Hunk
    } else if line_starts_with(&cs, "+") {
        DiffLineKind::Added
    } else if line_starts_with(&cs, "-") {
        DiffLineKind::Removed
    } else if line_starts_with(&cs, "index ") || line_starts_with(&cs, "new file")
        || line_starts_with(&cs, "deleted file") {
        DiffLineKind::Meta
    } else {
        DiffLineKind::Context
    }
}

/// The line of the first entry of `headers` among the first `k` that names
/// `path`.
pub open spec fn header_line_below(headers: Seq<(String, usize)>, path: Seq<char>, k: int) -> Option<usize>
    decreases k,
{
    if k <= 0 {
        None
    } else {
        match header_line_below(headers, path, k - 1) {
            Some(l) => Some(l),
            None => if headers[k - 1].0@ == path {
                Some(headers[k - 1].1)
            } else {
                None
            },
        }
    }
}

proof fn lemma_header_line_below_stable(headers: Seq<(String, usize)>, path: Seq<char>, k: int, m: int)
    requires
        0 <= k <= m,
        header_line_below(headers, path, k) is Some,
    ensures
        header_line_below(headers, path, m) == header_line_below(headers, path, k),
    decreases m - k,
{
    if m > k {
        lemma_header_line_below_stable(headers, path, k, m - 1);
    }
}

/// Where the diff view jumps when a file is clicked: the line of the first
/// header entry for that path, if any.
pub fn file_header_line(headers: &Vec<(String, usize)>, path: &str) -> (r: Option<usize>)
    ensures
        r == header_line_below(headers@, path@, headers@.len() as int),
{
    let mut k: usize = 0;
    while k < headers.len()
        invariant
            k <= headers@.len(),
            header_line_below(headers@, path@, k as int) is None,
        decreases headers@.len() - k,
    {
        if crate::app::str_eq(headers[k].0.as_str(), path) {
            proof {
                lemma_header_line_below_stable(headers@, path@, k + 1, headers@.len() as int);
            }
            return Some(headers[k].1);
        }
        k = k + 1;
    }
    None
}

proof fn lemma_header_line_below_found(headers: Seq<(String, usize)>, path: Seq<char>, k: int)
    requires
        0 <= k <= headers.len(),
    ensures
        header_line_below(headers, path, k) matches Some(l) ==> exists|j: int|
            0 <= j < k && (#[trigger] headers[j]).0@ == path && headers[j].1 == l,
        header_line_below(headers, path, k) is None ==> forall|j: int|
            0 <= j < k ==> (#[trigger] headers[j]).0@ != path,
    decreases k,
{
    if k > 0 {
        lemma_header_line_below_found(headers, path, k - 1);
    }
}

/// Law: clicking a file in the list of a loaded diff jumps to a `diff --git`
/// line of that diff whose `b/` path is the clicked path; when it does not
/// jump, no header of the diff names that path.
pub proof fn lemma_file_click_lands_on_its_header(
    d: DiffOutput,
    sha: Seq<char>,
    files_output: Seq<char>,
    raw_output: Seq<char>,
    path: Seq<char>,
)
    requires
        d@ == diff_view(sha, files_output, raw_output),
    ensures
        header_line_below(d.file_header_lines@, path, d.file_header_lines@.len() as int) matches Some(l)
            ==> l < d@.lines.len() && starts_with(d@.lines[l as int], "diff --git"@) && after_last(
            d@.lines[l as int],
            " b/"@,
        ) == path,
        header_line_below(d.file_header_lines@, path, d.file_header_lines@.len() as int) is None
            ==> forall|j: int|
            0 <= j < d@.file_header_lines.len() ==> (#[trigger] d@.file_header_lines[j]).0 != path,
{
    let hs = d.file_header_lines@;
    let ls = d@.lines;
    lemma_header_line_below_found(hs, path, hs.len() as int);
    lemma_file_headers_point_to_headers(ls, ls.len() as int);
    assert(d@.file_header_lines == file_headers(ls, ls.len() as int));
    assert forall|j: int| 0 <= j < hs.len() implies (#[trigger] hs[j]).0@ == d@.file_header_lines[j].0
        && hs[j].1 as int == d@.file_header_lines[j].1 by {}
}

} // verus!
