//! Git data: the commit, diff and rebase types, the argument lists of the git
//! commands the viewer runs, and the parsers of what those commands print.
//!
//! Running a command is the caller's part: it hands the functions here the
//! command's standard output (or its failure message) and gets plain values back.
use vstd::prelude::*;

use crate::text::{
    after_last, all_hex, all_hex_in, chars_of, ends_with, ends_with_in, first_index, first_index_in,
    last_occurrence, last_occurrence_in, lemma_split_on_nonempty, line_ranges, lines,
    non_empty_only, push_str, range_views, ranges_within, split, split_ranges, starts_with,
    starts_with_in, string_of, trim, trim_bounds, trim_start_char, trim_start_char_from,
    word_ranges, words, Sep,
};
use crate::text::{
    joined, lemma_first_index_at, lemma_joined_lacks, lemma_split_after_sep, lemma_split_joined,
    lemma_split_no_sep, lemma_trim_end_concat, lemma_trim_start_concat, lemma_trim_start_suffix,
    lemma_first_index_below_none, lemma_trim_lacks, trim_end, trim_start,
};

verus! {

// ---------------------------------------------------------------------------
// Types
// ---------------------------------------------------------------------------

/// A parsed commit from git log.
#[derive(Debug, Clone)]
pub struct Commit {
    pub full_sha: String,
    pub short_sha: String,
    pub parents: Vec<String>,
    pub author_name: String,
    pub author_email: String,
    pub date: String,
    pub subject: String,
    pub body: String,
    /// Ref names like "master", "origin/master", "tag: v1.0"
    pub refs: Vec<String>,
}

/// The parsed diff output for a single commit.
#[derive(Debug, Clone)]
pub struct DiffOutput {
    /// Pre-split diff lines for efficient row-based rendering.
    pub lines: Vec<String>,
    /// Index of `diff --git` header lines: maps file path → line index.
    /// Used by the diff view to jump to a file's section without scanning.
    pub file_header_lines: Vec<(String, usize)>,
    /// List of files affected in this commit.
    pub files: Vec<String>,
}

/// The contents of a [`DiffOutput`].
pub struct DiffView {
    pub lines: Seq<Seq<char>>,
    pub file_header_lines: Seq<(Seq<char>, int)>,
    pub files: Seq<Seq<char>>,
}

/// The header index as path and line number.
pub open spec fn header_views(h: Seq<(String, usize)>) -> Seq<(Seq<char>, int)> {
    h.map_values(|e: (String, usize)| (e.0@, e.1 as int))
}

impl View for DiffOutput {
    type V = DiffView;

    open spec fn view(&self) -> DiffView {
        DiffView {
            lines: self.lines.deep_view(),
            file_header_lines: header_views(self.file_header_lines@),
            files: self.files.deep_view(),
        }
    }
}

/// Action to perform on a commit during interactive rebase.
#[derive(Debug, Clone, Copy, PartialEq, Eq, Structural)]
pub enum RebaseAction {
    Pick,
    Reword,
    Edit,
    Squash,
    Fixup,
    Drop,
}

/// The git rebase-todo keyword of an action.
pub open spec fn action_keyword(a: RebaseAction) -> Seq<char> {
    match a {
        RebaseAction::Pick => "pick"@,
        RebaseAction::Reword => "reword"@,
        RebaseAction::Edit => "edit"@,
        RebaseAction::Squash => "squash"@,
        RebaseAction::Fixup => "fixup"@,
        RebaseAction::Drop => "drop"@,
    }
}

/// The menu label of an action.
pub open spec fn action_label(a: RebaseAction) -> Seq<char> {
    match a {
        RebaseAction::Pick => "Pick"@,
        RebaseAction::Reword => "Reword"@,
        RebaseAction::Edit => "Edit"@,
        RebaseAction::Squash => "Squash"@,
        RebaseAction::Fixup => "Fixup"@,
        RebaseAction::Drop => "Drop"@,
    }
}

impl RebaseAction {
    /// All available actions, in menu order.
    pub const ALL: [RebaseAction; 6] = [
        RebaseAction::Pick,
        RebaseAction::Reword,
        RebaseAction::Edit,
        RebaseAction::Squash,
        RebaseAction::Fixup,
        RebaseAction::Drop,
    ];

    /// The git rebase-todo keyword for this action.
    pub fn keyword(self) -> (k: &'static str)
        ensures
            k@ == action_keyword(self),
    {
        match self {
            RebaseAction::Pick => "pick",
            RebaseAction::Reword => "reword",
            RebaseAction::Edit => "edit",
            RebaseAction::Squash => "squash",
            RebaseAction::Fixup => "fixup",
            RebaseAction::Drop => "drop",
        }
    }

    /// Human-readable label for UI display.
    pub fn label(self) -> (l: &'static str)
        ensures
            l@ == action_label(self),
    {
        match self {
            RebaseAction::Pick => "Pick",
            RebaseAction::Reword => "Reword",
            RebaseAction::Edit => "Edit",
            RebaseAction::Squash => "Squash",
            RebaseAction::Fixup => "Fixup",
            RebaseAction::Drop => "Drop",
        }
    }
}

/// A character in lower case when it is an ASCII capital.
pub open spec fn ascii_lower_char(c: char) -> char {
    if 'A' <= c && c <= 'Z' {
        ((c as int) + 32) as char
    } else {
        c
    }
}

/// `s` with its ASCII capitals in lower case.
pub open spec fn ascii_lower(s: Seq<char>) -> Seq<char> {
    s.map_values(|c: char| ascii_lower_char(c))
}

/// Law: every action's rebase-todo keyword is its label in lower case, and no
/// two actions share a keyword.
pub proof fn lemma_keyword_is_lower_label(a: RebaseAction, b: RebaseAction)
    ensures
        action_keyword(a) == ascii_lower(action_label(a)),
        a != b ==> action_keyword(a) != action_keyword(b),
{
    reveal_strlit("pick");
    reveal_strlit("reword");
    reveal_strlit("edit");
    reveal_strlit("squash");
    reveal_strlit("fixup");
    reveal_strlit("drop");
    reveal_strlit("Pick");
    reveal_strlit("Reword");
    reveal_strlit("Edit");
    reveal_strlit("Squash");
    reveal_strlit("Fixup");
    reveal_strlit("Drop");
    assert(action_keyword(a) =~= ascii_lower(action_label(a)));
    if a != b {
        let ka = action_keyword(a);
        let kb = action_keyword(b);
        assert(ka.len() != kb.len() || ka[0] != kb[0]);
    }
}

/// A single entry in the interactive rebase commit list.
#[derive(Debug, Clone)]
pub struct RebaseEntry {
    /// The full SHA of the commit.
    pub sha: String,
    /// Short SHA for display.
    pub short_sha: String,
    /// Commit subject line.
    pub subject: String,
    /// The action to apply during rebase.
    pub action: RebaseAction,
}

/// The contents of a [`RebaseEntry`].
pub struct RebaseEntryView {
    pub sha: Seq<char>,
    pub short_sha: Seq<char>,
    pub subject: Seq<char>,
    pub action: RebaseAction,
}

impl View for RebaseEntry {
    type V = RebaseEntryView;

    open spec fn view(&self) -> RebaseEntryView {
        RebaseEntryView {
            sha: self.sha@,
            short_sha: self.short_sha@,
            subject: self.subject@,
            action: self.action,
        }
    }
}

pub open spec fn entry_views(es: Seq<RebaseEntry>) -> Seq<RebaseEntryView> {
    es.map_values(|e: RebaseEntry| e@)
}

pub proof fn lemma_entry_views_push(es: Seq<RebaseEntry>, e: RebaseEntry)
    ensures
        entry_views(es.push(e)) == entry_views(es).push(e@),
{
    assert(entry_views(es.push(e)) =~= entry_views(es).push(e@));
}

/// Represents a git operation that is currently in progress (paused, e.g. due to conflicts).
#[derive(Debug, Clone, PartialEq, Eq, Structural)]
pub enum InProgressOp {
    Rebase,
    CherryPick,
    Merge,
    Bisect,
    Revert,
}

/// The contents of a [`Commit`] as character sequences.
pub struct CommitView {
    pub full_sha: Seq<char>,
    pub short_sha: Seq<char>,
    pub parents: Seq<Seq<char>>,
    pub author_name: Seq<char>,
    pub author_email: Seq<char>,
    pub date: Seq<char>,
    pub subject: Seq<char>,
    pub body: Seq<char>,
    pub refs: Seq<Seq<char>>,
}

impl View for Commit {
    type V = CommitView;

    open spec fn view(&self) -> CommitView {
        CommitView {
            full_sha: self.full_sha@,
            short_sha: self.short_sha@,
            parents: self.parents.deep_view(),
            author_name: self.author_name@,
            author_email: self.author_email@,
            date: self.date@,
            subject: self.subject@,
            body: self.body@,
            refs: self.refs.deep_view(),
        }
    }
}

/// The views of a sequence of commits.
pub open spec fn commit_views(cs: Seq<Commit>) -> Seq<CommitView> {
    cs.map_values(|c: Commit| c@)
}

pub proof fn lemma_commit_views_push(cs: Seq<Commit>, c: Commit)
    ensures
        commit_views(cs.push(c)) == commit_views(cs).push(c@),
{
    assert(commit_views(cs.push(c)) =~= commit_views(cs).push(c@));
}

// ---------------------------------------------------------------------------
// Decorations and dates
// ---------------------------------------------------------------------------

/// One comma-separated piece of a `%D` decoration as the viewer shows it:
/// trimmed, without a leading `HEAD -> `, and dropped when empty or when it
/// names a remote's `HEAD`.
pub open spec fn ref_name(piece: Seq<char>) -> Option<Seq<char>> {
    let t = trim(piece);
    if t.len() == 0 {
        None
    } else {
        let n = if starts_with(t, "HEAD -> "@) {
            t.subrange("HEAD -> "@.len() as int, t.len() as int)
        } else {
            t
        };
        if ends_with(n, "/HEAD"@) {
            None
        } else {
            Some(n)
        }
    }
}

/// The ref names of a sequence of decoration pieces, in order.
pub open spec fn ref_names(ps: Seq<Seq<char>>) -> Seq<Seq<char>>
    decreases ps.len(),
{
    if ps.len() == 0 {
        Seq::empty()
    } else {
        let r = ref_names(ps.drop_last());
        match ref_name(ps.last()) {
            Some(n) => r.push(n),
            None => r,
        }
    }
}

/// The ref names in a `%D` decoration such as `HEAD -> master, origin/master, tag: v1.0`.
pub open spec fn decoration_refs(decoration: Seq<char>) -> Seq<Seq<char>> {
    ref_names(split(decoration, ','))
}

proof fn lemma_ref_names_take(ps: Seq<Seq<char>>, k: int)
    requires
        0 <= k < ps.len(),
    ensures
        ref_names(ps.take(k + 1)) == match ref_name(ps[k]) {
            Some(n) => ref_names(ps.take(k)).push(n),
            None => ref_names(ps.take(k)),
        },
{
    assert(ps.take(k + 1).drop_last() =~= ps.take(k));
}

/// The ref names of the decoration `cs[lo..hi]`.
fn refs_in(cs: &[char], lo: usize, hi: usize) -> (r: Vec<String>)
    requires
        lo <= hi <= cs@.len(),
    ensures
        r.deep_view() == decoration_refs(cs@.subrange(lo as int, hi as int)),
{
    let head_arrow = chars_of("HEAD -> ");
    let remote_head = chars_of("/HEAD");
    let pieces = split_ranges(cs, lo, hi, Sep::Char(','));
    let ghost ps = split(cs@.subrange(lo as int, hi as int), ',');
    let mut r: Vec<String> = Vec::new();
    let mut k: usize = 0;
    assert(ps.take(0) =~= Seq::<Seq<char>>::empty());
    while k < pieces.len()
        invariant
            k <= pieces@.len(),
            lo <= hi <= cs@.len(),
            head_arrow@ == "HEAD -> "@,
            remote_head@ == "/HEAD"@,
            range_views(cs@, pieces@) == ps,
            ranges_within(pieces@, lo as int, hi as int),
            r.deep_view() == ref_names(ps.take(k as int)),
        decreases pieces@.len() - k,
    {
        let (a, b) = pieces[k];
        assert(pieces@[k as int] == (a, b));
        assert(range_views(cs@, pieces@)[k as int] == cs@.subrange(a as int, b as int));
        proof {
            lemma_ref_names_take(ps, k as int);
        }
        let (ta, tb) = trim_bounds(cs, a, b);
        let ghost t = cs@.subrange(ta as int, tb as int);
        if ta < tb {
            let mut na = ta;
            if starts_with_in(cs, ta, tb, head_arrow.as_slice()) {
                na = ta + head_arrow.len();
                assert(cs@.subrange(na as int, tb as int) =~= t.subrange(
                    "HEAD -> "@.len() as int,
                    t.len() as int,
                ));
            } else {
                assert(cs@.subrange(na as int, tb as int) =~= t);
            }
            if !ends_with_in(cs, na, tb, remote_head.as_slice()) {
                let ghost prev = r.deep_view();
                r.push(string_of(cs, na, tb));
                assert(r.deep_view() =~= prev.push(cs@.subrange(na as int, tb as int)));
            }
        }
        k = k + 1;
    }
    assert(ps.take(pieces@.len() as int) =~= ps);
    r
}

/// Parse the %D decoration string into a list of ref names.
/// Input looks like: "HEAD -> master, origin/master, tag: v1.0"
pub fn parse_refs(decoration: &str) -> (r: Vec<String>)
    ensures
        r.deep_view() == decoration_refs(decoration@),
{
    let cs = chars_of(decoration);
    assert(cs@.subrange(0, cs@.len() as int) =~= decoration@);
    refs_in(cs.as_slice(), 0, cs.len())
}

/// A `%ai` date without its time zone: everything before the last space, or the
/// whole text when it has no space.
pub open spec fn short_date(date: Seq<char>) -> Seq<char> {
    match last_occurrence(date, seq![' ']) {
        Some(i) => date.subrange(0, i),
        None => date,
    }
}

/// The bounds within `cs` of `short_date(cs[lo..hi])`.
fn short_date_bounds(cs: &[char], lo: usize, hi: usize) -> (r: usize)
    requires
        lo <= hi <= cs@.len(),
    ensures
        lo <= r <= hi,
        cs@.subrange(lo as int, r as int) == short_date(cs@.subrange(lo as int, hi as int)),
{
    let space: Vec<char> = vec![' '];
    assert(space@ =~= seq![' ']);
    match last_occurrence_in(cs, lo, hi, space.as_slice()) {
        Some(i) => {
            assert(cs@.subrange(lo as int, (lo + i) as int) =~= cs@.subrange(
                lo as int,
                hi as int,
            ).subrange(0, i as int));
            lo + i
        },
        None => hi,
    }
}

/// Format a git date string (e.g. "2024-01-15 12:34:56 +0100") into
/// a shorter form (e.g. "2024-01-15 12:34:56").
pub fn format_date(date: &str) -> (r: String)
    ensures
        r@ == short_date(date@),
{
    let cs = chars_of(date);
    assert(cs@.subrange(0, cs@.len() as int) =~= date@);
    let e = short_date_bounds(cs.as_slice(), 0, cs.len());
    string_of(cs.as_slice(), 0, e)
}


// ---------------------------------------------------------------------------
// The commit log
// ---------------------------------------------------------------------------

/// The commit that the NUL-separated fields of one log record describe.
pub open spec fn commit_of_fields(f: Seq<Seq<char>>) -> CommitView {
    CommitView {
        full_sha: trim(f[0]),
        short_sha: trim(f[1]),
        parents: words(f[2]),
        author_name: trim(f[3]),
        author_email: trim(f[4]),
        date: short_date(trim(f[5])),
        subject: trim(f[6]),
        body: trim(f[7]),
        refs: if f.len() > 8 && trim(f[8]).len() > 0 {
            decoration_refs(trim(f[8]))
        } else {
            Seq::empty()
        },
    }
}

/// The commit of one log record, if the record describes one: a record that is
/// blank or has fewer than eight fields is skipped.
pub open spec fn record_commit(record: Seq<char>) -> Option<CommitView> {
    let r = trim(record);
    if r.len() == 0 {
        None
    } else {
        let f = split(r, '\0');
        if f.len() < 8 {
            None
        } else {
            Some(commit_of_fields(f))
        }
    }
}

/// The commits of a sequence of log records, in order.
pub open spec fn record_commits(rs: Seq<Seq<char>>) -> Seq<CommitView>
    decreases rs.len(),
{
    if rs.len() == 0 {
        Seq::empty()
    } else {
        let c = record_commits(rs.drop_last());
        match record_commit(rs.last()) {
            Some(v) => c.push(v),
            None => c,
        }
    }
}

/// The commits that `git log` printed with the viewer's format: records end
/// with SOH (`\x01`), fields end with NUL.
pub open spec fn log_commits(output: Seq<char>) -> Seq<CommitView> {
    record_commits(split(output, '\x01'))
}

proof fn lemma_record_commits_take(rs: Seq<Seq<char>>, k: int)
    requires
        0 <= k < rs.len(),
    ensures
        record_commits(rs.take(k + 1)) == match record_commit(rs[k]) {
            Some(v) => record_commits(rs.take(k)).push(v),
            None => record_commits(rs.take(k)),
        },
{
    assert(rs.take(k + 1).drop_last() =~= rs.take(k));
}

/// Law: a log record made of NUL-separated fields (at least the eight the
/// viewer asks for, none holding NUL or SOH, and no white space around the
/// record) and ended by SOH reads back as exactly one commit, whose SHAs,
/// author, subject and whole body are its fields trimmed, line breaks inside
/// them kept, and whose parents are the words of the third field.
pub proof fn lemma_log_record_fields(fields: Seq<Seq<char>>)
    requires
        fields.len() >= 8,
        forall|i: int|
            0 <= i < fields.len() ==> !(#[trigger] fields[i]).contains('\0') && !fields[i].contains(
                '\x01',
            ),
        joined(fields, '\0').len() > 0,
        trim(joined(fields, '\0')) == joined(fields, '\0'),
    ensures
        ({
            let cs = log_commits(joined(fields, '\0') + seq!['\x01']);
            &&& cs.len() == 1
            &&& cs[0].full_sha == trim(fields[0])
            &&& cs[0].short_sha == trim(fields[1])
            &&& cs[0].parents == words(fields[2])
            &&& cs[0].author_name == trim(fields[3])
            &&& cs[0].author_email == trim(fields[4])
            &&& cs[0].subject == trim(fields[6])
            &&& cs[0].body == trim(fields[7])
        }),
{
    let r = joined(fields, '\0');
    lemma_joined_lacks(fields, '\0', '\x01');
    lemma_split_no_sep(r, '\x01');
    lemma_split_after_sep(r, Seq::empty(), '\x01');
    assert(r + seq!['\x01'] =~= r + seq!['\x01'] + Seq::<char>::empty());
    let rs = split(r + seq!['\x01'], '\x01');
    assert(rs =~= seq![r, Seq::<char>::empty()]);
    lemma_split_joined(fields, '\0');
    assert(record_commit(r) == Some(commit_of_fields(fields)));
    assert(trim(Seq::<char>::empty()) =~= Seq::<char>::empty());
    assert(record_commit(Seq::<char>::empty()) is None);
    assert(rs.drop_last() =~= seq![r]);
    assert(seq![r].drop_last() =~= Seq::<Seq<char>>::empty());
    assert(seq![r].last() == r);
    assert(record_commits(seq![r].drop_last()) == Seq::<CommitView>::empty());
    assert(Seq::<CommitView>::empty().push(commit_of_fields(fields)) =~= seq![commit_of_fields(fields)]);
    assert(record_commits(seq![r]) == seq![commit_of_fields(fields)]);
    assert(rs.last() == Seq::<char>::empty());
    assert(record_commits(rs) == record_commits(seq![r]));
    assert(log_commits(r + seq!['\x01']) == seq![commit_of_fields(fields)]);
}

/// New strings holding the ranges `r` of `cs`.
pub fn strings_of(cs: &[char], r: &Vec<(usize, usize)>) -> (v: Vec<String>)
    requires
        ranges_within(r@, 0, cs@.len() as int),
    ensures
        v.deep_view() == range_views(cs@, r@),
{
    let mut v: Vec<String> = Vec::new();
    let mut k: usize = 0;
    while k < r.len()
        invariant
            k <= r@.len(),
            ranges_within(r@, 0, cs@.len() as int),
            v.deep_view() == range_views(cs@, r@.take(k as int)),
        decreases r@.len() - k,
    {
        let (a, b) = r[k];
        assert(r@[k as int] == (a, b));
        let ghost prev = v.deep_view();
        v.push(string_of(cs, a, b));
        assert(v.deep_view() =~= prev.push(cs@.subrange(a as int, b as int)));
        assert(range_views(cs@, r@.take(k + 1)) =~= range_views(cs@, r@.take(k as int)).push(
            cs@.subrange(a as int, b as int),
        ));
        k = k + 1;
    }
    assert(r@.take(r@.len() as int) =~= r@);
    v
}

/// A new string holding `trim(cs[lo..hi])`.
fn trimmed(cs: &[char], lo: usize, hi: usize) -> (r: String)
    requires
        lo <= hi <= cs@.len(),
    ensures
        r@ == trim(cs@.subrange(lo as int, hi as int)),
{
    let (a, b) = trim_bounds(cs, lo, hi);
    string_of(cs, a, b)
}

/// The commit whose fields are the ranges `f` of `cs`.
fn commit_from_fields(cs: &[char], f: &Vec<(usize, usize)>) -> (c: Commit)
    requires
        f@.len() >= 8,
        ranges_within(f@, 0, cs@.len() as int),
    ensures
        c@ == commit_of_fields(range_views(cs@, f@)),
{
    let ghost fv = range_views(cs@, f@);
    assert forall|k: int| 0 <= k < f@.len() implies fv[k] == cs@.subrange(
        f@[k].0 as int,
        f@[k].1 as int,
    ) by {}
    let full_sha = trimmed(cs, f[0].0, f[0].1);
    let short_sha = trimmed(cs, f[1].0, f[1].1);
    let pr = word_ranges(cs, f[2].0, f[2].1);
    let parents = strings_of(cs, &pr);
    let author_name = trimmed(cs, f[3].0, f[3].1);
    let author_email = trimmed(cs, f[4].0, f[4].1);
    let (da, db) = trim_bounds(cs, f[5].0, f[5].1);
    let de = short_date_bounds(cs, da, db);
    let date = string_of(cs, da, de);
    let subject = trimmed(cs, f[6].0, f[6].1);
    let body = trimmed(cs, f[7].0, f[7].1);
    let mut refs: Vec<String> = Vec::new();
    if f.len() > 8 {
        let (ra, rb) = trim_bounds(cs, f[8].0, f[8].1);
        if ra < rb {
            refs = refs_in(cs, ra, rb);
        }
    }
    assert(refs.deep_view() =~= commit_of_fields(fv).refs);
    Commit {
        full_sha,
        short_sha,
        parents,
        author_name,
        author_email,
        date,
        subject,
        body,
        refs,
    }
}

/// The commits of the records that end in `cs[lo..hi]`.
fn commits_in(cs: &[char], lo: usize, hi: usize) -> (r: Vec<Commit>)
    requires
        lo <= hi <= cs@.len(),
    ensures
        commit_views(r@) == log_commits(cs@.subrange(lo as int, hi as int)),
{
    let records = split_ranges(cs, lo, hi, Sep::Char('\x01'));
    let ghost rs = split(cs@.subrange(lo as int, hi as int), '\x01');
    let mut r: Vec<Commit> = Vec::new();
    let mut k: usize = 0;
    assert(rs.take(0) =~= Seq::<Seq<char>>::empty());
    assert(commit_views(r@) =~= Seq::<CommitView>::empty());
    while k < records.len()
        invariant
            k <= records@.len(),
            lo <= hi <= cs@.len(),
            range_views(cs@, records@) == rs,
            ranges_within(records@, lo as int, hi as int),
            commit_views(r@) == record_commits(rs.take(k as int)),
        decreases records@.len() - k,
    {
        let (a, b) = records[k];
        assert(records@[k as int] == (a, b));
        assert(range_views(cs@, records@)[k as int] == cs@.subrange(a as int, b as int));
        proof {
            lemma_record_commits_take(rs, k as int);
        }
        let (ta, tb) = trim_bounds(cs, a, b);
        if ta < tb {
            let fields = split_ranges(cs, ta, tb, Sep::Char('\0'));
            if fields.len() >= 8 {
                assert(ranges_within(fields@, 0, cs@.len() as int));
                let c = commit_from_fields(cs, &fields);
                proof {
                    lemma_commit_views_push(r@, c);
                }
                r.push(c);
            }
        }
        k = k + 1;
    }
    assert(rs.take(records@.len() as int) =~= rs);
    r
}

/// The commits in the output of `git log` run with [`load_commits_args`].
pub fn parse_log(output: &str) -> (r: Vec<Commit>)
    ensures
        commit_views(r@) == log_commits(output@),
{
    let cs = chars_of(output);
    assert(cs@.subrange(0, cs@.len() as int) =~= output@);
    commits_in(cs.as_slice(), 0, cs.len())
}


// ---------------------------------------------------------------------------
// Command lines
// ---------------------------------------------------------------------------

/// New strings holding `parts`, in order.
pub fn strings(parts: &[&str]) -> (v: Vec<String>)
    ensures
        v.deep_view() == parts.deep_view(),
{
    let mut v: Vec<String> = Vec::new();
    let mut k: usize = 0;
    while k < parts.len()
        invariant
            k <= parts@.len(),
            v.deep_view() == parts.deep_view().take(k as int),
        decreases parts@.len() - k,
    {
        let ghost prev = v.deep_view();
        v.push(parts[k].to_owned());
        assert(v.deep_view() =~= prev.push(parts[k as int]@));
        assert(parts.deep_view().take(k + 1) =~= parts.deep_view().take(k as int).push(
            parts[k as int]@,
        ));
        k = k + 1;
    }
    assert(parts.deep_view().take(parts@.len() as int) =~= parts.deep_view());
    v
}

/// Appends a copy of `s` to `v`.
pub fn push_copy(v: &mut Vec<String>, s: &str)
    ensures
        final(v).deep_view() == old(v).deep_view().push(s@),
{
    v.push(s.to_owned());
    assert(v.deep_view() =~= old(v).deep_view().push(s@));
}

/// The characters of `s` joined by `sep`.
pub open spec fn join(s: Seq<Seq<char>>, sep: Seq<char>) -> Seq<char>
    decreases s.len(),
{
    if s.len() == 0 {
        Seq::empty()
    } else if s.len() == 1 {
        s[0]
    } else {
        join(s.drop_last(), sep) + sep + s.last()
    }
}

/// What a failed git command reports: `git <args> failed: <stderr, trimmed>`.
pub open spec fn failure_message(args: Seq<Seq<char>>, stderr: Seq<char>) -> Seq<char> {
    "git "@ + join(args, " "@) + " failed: "@ + trim(stderr)
}

/// The message of a git command that exited with a failure status.
pub fn git_failure(args: &[String], stderr: &str) -> (m: String)
    ensures
        m@ == failure_message(args.deep_view(), stderr@),
{
    let mut m = String::new();
    push_str(&mut m, "git ");
    let ghost start = m@;
    let mut k: usize = 0;
    while k < args.len()
        invariant
            k <= args@.len(),
            start == "git "@,
            m@ == start + join(args.deep_view().take(k as int), " "@),
        decreases args@.len() - k,
    {
        let ghost a = args.deep_view();
        assert(a.take(k + 1).drop_last() =~= a.take(k as int));
        assert(a.take(k + 1).last() == a[k as int]);
        if k > 0 {
            push_str(&mut m, " ");
        } else {
            assert(a.take(1) =~= seq![a[0]]);
        }
        push_str(&mut m, args[k].as_str());
        k = k + 1;
        assert(m@ =~= start + join(a.take(k as int), " "@));
    }
    assert(args.deep_view().take(args@.len() as int) =~= args.deep_view());
    push_str(&mut m, " failed: ");
    let t = crate::text::trim_str(stderr);
    push_str(&mut m, t.as_str());
    assert(m@ =~= failure_message(args.deep_view(), stderr@));
    m
}

/// The arguments of `git log` that list the commits the viewer shows.
pub open spec fn log_args(
    show_all: bool,
    revision: Option<Seq<char>>,
    path_filter: Option<Seq<char>>,
    extra_shas: Seq<Seq<char>>,
) -> Seq<Seq<char>> {
    seq!["log"@, "--format=%H%x00%h%x00%P%x00%an%x00%ae%x00%ai%x00%s%x00%b%x00%D%x01"@, "--topo-order"@]
        + (if show_all {
        seq!["--all"@]
    } else {
        Seq::empty()
    }) + (match revision {
        Some(r) => seq![r],
        None => Seq::empty(),
    }) + extra_shas + (match path_filter {
        Some(p) => seq!["--"@, p],
        None => Seq::empty(),
    })
}

/// The view of an optional string slice.
pub open spec fn opt_view(o: Option<&str>) -> Option<Seq<char>> {
    match o {
        Some(s) => Some(s@),
        None => None,
    }
}

/// Arguments of `git log` for the commit list.
///
/// - `show_all`: if true, passes `--all` to show all branches.
/// - `revision`: if Some, shows history for that branch/tag/ref instead of HEAD.
/// - `path_filter`: if Some, appends `-- <path>` to filter by file/directory.
/// - `extra_shas`: additional SHAs to include as starting points (e.g. orphaned
///   reflog commits). Git will topo-sort and deduplicate them with the rest.
///
/// NUL separates the fields and SOH ends each record, so that the output parses
/// reliably; `--topo-order` keeps children before parents and branches together,
/// which the graph layout needs.
pub fn load_commits_args(
    show_all: bool,
    revision: Option<&str>,
    path_filter: Option<&str>,
    extra_shas: &[String],
) -> (r: Vec<String>)
    ensures
        r.deep_view() == log_args(
            show_all,
            opt_view(revision),
            opt_view(path_filter),
            extra_shas.deep_view(),
        ),
{
    let mut r = strings(
        &["log", "--format=%H%x00%h%x00%P%x00%an%x00%ae%x00%ai%x00%s%x00%b%x00%D%x01", "--topo-order"],
    );
    let ghost base = r.deep_view();
    if show_all {
        push_copy(&mut r, "--all");
    }
    if let Some(rev) = revision {
        push_copy(&mut r, rev);
    }
    let ghost mid = r.deep_view();
    let mut k: usize = 0;
    while k < extra_shas.len()
        invariant
            k <= extra_shas@.len(),
            r.deep_view() == mid + extra_shas.deep_view().take(k as int),
        decreases extra_shas@.len() - k,
    {
        push_copy(&mut r, extra_shas[k].as_str());
        k = k + 1;
        assert(r.deep_view() =~= mid + extra_shas.deep_view().take(k as int));
    }
    assert(extra_shas.deep_view().take(extra_shas@.len() as int) =~= extra_shas.deep_view());
    if let Some(path) = path_filter {
        push_copy(&mut r, "--");
        push_copy(&mut r, path);
    }
    assert(r.deep_view() =~= log_args(
        show_all,
        opt_view(revision),
        opt_view(path_filter),
        extra_shas.deep_view(),
    ));
    r
}

/// Git's failure on a repository that has no commits yet.
pub open spec fn empty_repo_error(e: Seq<char>) -> bool {
    crate::text::contains_seq(e, "does not have any commits yet"@) || crate::text::contains_seq(
        e,
        "bad default revision"@,
    )
}

/// Whether `e` reports a repository that has no commits yet.
pub fn is_empty_repo_error(e: &str) -> (b: bool)
    ensures
        b == empty_repo_error(e@),
{
    let cs = chars_of(e);
    assert(cs@.subrange(0, cs@.len() as int) =~= e@);
    let p1 = chars_of("does not have any commits yet");
    let p2 = chars_of("bad default revision");
    crate::text::contains_in(cs.as_slice(), 0, cs.len(), p1.as_slice())
        || crate::text::contains_in(cs.as_slice(), 0, cs.len(), p2.as_slice())
}

/// Load commits from the outcome of `git log` run with [`load_commits_args`].
///
/// Empty repos have no commits yet; their failure is an empty list, not an error.
pub fn load_commits(output: Result<String, String>) -> (r: Result<Vec<Commit>, String>)
    ensures
        match output {
            Ok(o) => r is Ok && commit_views(r->Ok_0@) == log_commits(o@),
            Err(e) => if empty_repo_error(e@) {
                r is Ok && r->Ok_0@.len() == 0
            } else {
                r == Err::<Vec<Commit>, String>(e)
            },
        },
{
    match output {
        Ok(o) => Ok(parse_log(o.as_str())),
        Err(e) => {
            if is_empty_repo_error(e.as_str()) {
                Ok(Vec::new())
            } else {
                Err(e)
            }
        },
    }
}


/// Arguments that print the current branch's short name.
pub fn current_branch_args() -> (r: Vec<String>)
    ensures
        r.deep_view() == seq!["symbolic-ref"@, "--short"@, "HEAD"@],
{
    strings(&["symbolic-ref", "--short", "HEAD"])
}

/// The current branch name from the outcome of [`current_branch_args`]: its
/// output trimmed, or `Detached HEAD` when that is empty; git's failure passes
/// through.
pub fn current_branch(output: Result<String, String>) -> (r: Result<String, String>)
    ensures
        match output {
            Ok(o) => if trim(o@).len() == 0 {
                r is Err && r->Err_0@ == "Detached HEAD"@
            } else {
                r is Ok && r->Ok_0@ == trim(o@)
            },
            Err(e) => r == Err::<String, String>(e),
        },
{
    match output {
        Ok(o) => {
            let branch = crate::text::trim_str(o.as_str());
            if branch.as_str().is_empty() {
                Err("Detached HEAD".to_owned())
            } else {
                Ok(branch)
            }
        },
        Err(e) => Err(e),
    }
}

/// The local name of a remote ref such as `origin/foo`: the text after its
/// last `/`, when it has one.
pub open spec fn remote_local_name(branch: Seq<char>) -> Option<Seq<char>> {
    if branch.contains('/') {
        Some(split(branch, '/').last())
    } else {
        None
    }
}

/// The text after the last `/` of `branch`, when it has one.
fn local_name_of(branch: &str) -> (r: Option<String>)
    ensures
        match r {
            Some(n) => remote_local_name(branch@) == Some(n@),
            None => remote_local_name(branch@) is None,
        },
{
    let cs = chars_of(branch);
    assert(cs@.subrange(0, cs@.len() as int) =~= branch@);
    let pieces = split_ranges(cs.as_slice(), 0, cs.len(), Sep::Char('/'));
    proof {
        lemma_split_on_nonempty(branch@, Sep::Char('/'));
    }
    if pieces.len() <= 1 {
        proof {
            if branch@.contains('/') {
                let i = choose|i: int| 0 <= i < branch@.len() && branch@[i] == '/';
                crate::text::lemma_split_count(branch@, Sep::Char('/'), i);
            }
        }
        return None;
    }
    proof {
        crate::text::lemma_split_has_sep(branch@, Sep::Char('/'));
    }
    let (a, b) = pieces[pieces.len() - 1];
    assert(pieces@[pieces@.len() - 1] == (a, b));
    assert(range_views(cs@, pieces@)[pieces@.len() - 1] == cs@.subrange(a as int, b as int));
    Some(string_of(cs.as_slice(), a, b))
}

/// The `show-ref` probe that tells whether the local branch `name` exists
/// (`refs/heads/<name>`): git succeeds exactly when it does.
pub fn local_ref_probe(name: &str) -> (r: Vec<String>)
    ensures
        r.deep_view() == seq!["show-ref"@, "--verify"@, "--quiet"@, "refs/heads/"@ + name@],
{
    let mut r = strings(&["show-ref", "--verify", "--quiet"]);
    let mut refname = "refs/heads/".to_owned();
    push_str(&mut refname, name);
    let ghost prev = r.deep_view();
    r.push(refname);
    assert(r.deep_view() =~= prev.push(refname@));
    r
}

/// The `show-ref` probe that tells whether the local branch for a remote ref
/// already exists; `None` for a name without `/`.
pub fn local_branch_probe(branch: &str) -> (r: Option<Vec<String>>)
    ensures
        match remote_local_name(branch@) {
            Some(n) => r is Some && r->Some_0.deep_view() == seq![
                "show-ref"@,
                "--verify"@,
                "--quiet"@,
                "refs/heads/"@ + n,
            ],
            None => r is None,
        },
{
    match local_name_of(branch) {
        Some(local) => Some(local_ref_probe(local.as_str())),
        None => None,
    }
}

/// What checking out `branch` runs.
pub open spec fn checkout_args(branch: Seq<char>, is_local: bool, local_exists: bool) -> Seq<Seq<char>> {
    if is_local {
        seq!["checkout"@, branch]
    } else {
        match remote_local_name(branch) {
            Some(n) => if local_exists {
                seq!["checkout"@, n]
            } else {
                seq!["checkout"@, "--track"@, branch]
            },
            None => seq!["checkout"@, branch],
        }
    }
}

/// Checkout a branch by name.
///
/// If `branch` is already a local name (`is_local`: `refs/heads/<branch>`
/// exists, the success of [`local_ref_probe`] on it), just check it out.
///
/// Otherwise, if `branch` is a remote ref like `origin/foo`:
///   - If the local branch `foo` already exists (`local_exists`, the success of
///     [`local_branch_probe`]), check it out directly.
///   - Otherwise, create a local tracking branch with `git checkout --track origin/foo`.
pub fn checkout_branch(branch: &str, is_local: bool, local_exists: bool) -> (r: Vec<String>)
    ensures
        r.deep_view() == checkout_args(branch@, is_local, local_exists),
{
    if is_local {
        return strings(&["checkout", branch]);
    }
    match local_name_of(branch) {
        Some(local) => {
            if local_exists {
                let mut r = strings(&["checkout"]);
                let ghost prev = r.deep_view();
                r.push(local);
                assert(r.deep_view() =~= prev.push(local@));
                r
            } else {
                strings(&["checkout", "--track", branch])
            }
        },
        None => strings(&["checkout", branch]),
    }
}

/// Delete a local branch. Uses `-D` (force delete).
pub fn delete_branch(branch: &str) -> (r: Vec<String>)
    ensures
        r.deep_view() == seq!["branch"@, "-D"@, branch@],
{
    strings(&["branch", "-D", branch])
}

/// Create a new branch at the given commit SHA.
pub fn create_branch(name: &str, sha: &str) -> (r: Vec<String>)
    ensures
        r.deep_view() == seq!["branch"@, name@, sha@],
{
    strings(&["branch", name, sha])
}

/// Reset the current branch to the given SHA with `--mixed` (keeps working tree).
pub fn reset_mixed(sha: &str) -> (r: Vec<String>)
    ensures
        r.deep_view() == seq!["reset"@, "--mixed"@, sha@],
{
    strings(&["reset", "--mixed", sha])
}

/// Reset the current branch to the given SHA with `--hard` (discards everything).
pub fn reset_hard(sha: &str) -> (r: Vec<String>)
    ensures
        r.deep_view() == seq!["reset"@, "--hard"@, sha@],
{
    strings(&["reset", "--hard", sha])
}

/// Revert the given commit (creates a new commit that undoes it).
pub fn revert_commit(sha: &str) -> (r: Vec<String>)
    ensures
        r.deep_view() == seq!["revert"@, "--no-edit"@, sha@],
{
    strings(&["revert", "--no-edit", sha])
}

/// Cherry-pick the given commit onto the current branch.
pub fn cherry_pick(sha: &str) -> (r: Vec<String>)
    ensures
        r.deep_view() == seq!["cherry-pick"@, sha@],
{
    strings(&["cherry-pick", sha])
}

/// Rebase the current branch onto the given commit SHA (non-interactive).
pub fn rebase(onto_sha: &str) -> (r: Vec<String>)
    ensures
        r.deep_view() == seq!["rebase"@, onto_sha@],
{
    strings(&["rebase", onto_sha])
}

/// Start an interactive rebase onto `base_sha`.
pub fn rebase_interactive_args(base_sha: &str) -> (r: Vec<String>)
    ensures
        r.deep_view() == seq!["rebase"@, "-i"@, base_sha@],
{
    strings(&["rebase", "-i", base_sha])
}

/// Arguments that print the repository's top-level directory.
pub fn repo_root_args() -> (r: Vec<String>)
    ensures
        r.deep_view() == seq!["rev-parse"@, "--show-toplevel"@],
{
    strings(&["rev-parse", "--show-toplevel"])
}

/// The repository root from the output of [`repo_root_args`]: the output
/// trimmed, or an error when that is empty.
pub fn repo_root(output: &str) -> (r: Result<String, String>)
    ensures
        if trim(output@).len() == 0 {
            r is Err && r->Err_0@ == "Could not determine repository root"@
        } else {
            r is Ok && r->Ok_0@ == trim(output@)
        },
{
    let root = crate::text::trim_str(output);
    if root.as_str().is_empty() {
        Err("Could not determine repository root".to_owned())
    } else {
        Ok(root)
    }
}


/// What verifying a repository does next.
#[derive(Debug)]
pub enum RepoCheck {
    /// Run git with these arguments in the path and report how it went.
    RunGit(Vec<String>),
    /// The repository root, or why there is none.
    Done(Result<String, String>),
}

/// Verify that `path` is inside a git repository, and find its root.
///
/// `path_exists` tells whether the path exists; `run` is `None` before git
/// has run, then the outcome of running the arguments this returns in
/// [`RepoCheck::RunGit`]: `Err` with the reason when git could not be
/// started, else whether it succeeded and what it printed. A missing path is
/// an error without running git.
pub fn verify_repo(path: &str, path_exists: bool, run: &Option<Result<(bool, String), String>>) -> (r:
    RepoCheck)
    ensures
        if !path_exists {
            r matches RepoCheck::Done(Err(m)) && m@ == "Path does not exist: "@ + path@
        } else {
            match run {
                None => r matches RepoCheck::RunGit(a) && a.deep_view() == seq![
                    "rev-parse"@,
                    "--show-toplevel"@,
                ],
                Some(Err(e)) => r matches RepoCheck::Done(Err(m)) && m@ == "Failed to execute git: "@
                    + e@,
                Some(Ok((success, out))) => if !*success {
                    r matches RepoCheck::Done(Err(m)) && m@
                        == "Not a git repository (or any parent up to mount point /)"@
                } else if trim(out@).len() == 0 {
                    r matches RepoCheck::Done(Err(m)) && m@ == "Could not determine repository root"@
                } else {
                    r matches RepoCheck::Done(Ok(root)) && root@ == trim(out@)
                },
            }
        },
{
    if !path_exists {
        let mut m = "Path does not exist: ".to_owned();
        push_str(&mut m, path);
        return RepoCheck::Done(Err(m));
    }
    match run {
        None => RepoCheck::RunGit(repo_root_args()),
        Some(Err(e)) => {
            let mut m = "Failed to execute git: ".to_owned();
            push_str(&mut m, e.as_str());
            RepoCheck::Done(Err(m))
        },
        Some(Ok((success, out))) => {
            if !*success {
                RepoCheck::Done(Err("Not a git repository (or any parent up to mount point /)".to_owned()))
            } else {
                RepoCheck::Done(repo_root(out.as_str()))
            }
        },
    }
}


// ---------------------------------------------------------------------------
// Diffs
// ---------------------------------------------------------------------------

/// Arguments that print a commit's parents.
pub fn is_root_commit_args(sha: &str) -> (r: Vec<String>)
    ensures
        r.deep_view() == seq!["log"@, "-1"@, "--format=%P"@, sha@],
{
    strings(&["log", "-1", "--format=%P", sha])
}

/// Check if a commit is the root commit (has no parents), from the outcome of
/// [`is_root_commit_args`]: a failure counts as not root.
pub fn is_root_commit(output: Result<String, String>) -> (b: bool)
    ensures
        b == match output {
            Ok(o) => trim(o@).len() == 0,
            Err(_) => false,
        },
{
    match output {
        Ok(o) => crate::text::trim_str(o.as_str()).as_str().is_empty(),
        Err(_) => false,
    }
}

/// Arguments that list the files a commit changed (root commits need `--root`).
pub fn diff_files_args(root: bool, sha: &str) -> (r: Vec<String>)
    ensures
        r.deep_view() == if root {
            seq!["diff-tree"@, "--root"@, "--no-commit-id"@, "-r"@, "--name-only"@, sha@]
        } else {
            seq!["diff-tree"@, "--no-commit-id"@, "-r"@, "--name-only"@, sha@]
        },
{
    if root {
        strings(&["diff-tree", "--root", "--no-commit-id", "-r", "--name-only", sha])
    } else {
        strings(&["diff-tree", "--no-commit-id", "-r", "--name-only", sha])
    }
}

/// Arguments that print a commit's full diff (root commits need `--root`).
pub fn diff_patch_args(root: bool, sha: &str) -> (r: Vec<String>)
    ensures
        r.deep_view() == if root {
            seq!["diff-tree"@, "--root"@, "-p"@, "--stat"@, sha@]
        } else {
            seq!["diff-tree"@, "-p"@, "--stat"@, sha@]
        },
{
    if root {
        strings(&["diff-tree", "--root", "-p", "--stat", sha])
    } else {
        strings(&["diff-tree", "-p", "--stat", sha])
    }
}

/// The diff without the commit SHA that `diff-tree` prints as its first line:
/// the SHA itself when the output starts with it, else a first line made of hex
/// digits only; the newlines after it go too.
pub open spec fn strip_sha_line(raw: Seq<char>, sha: Seq<char>) -> Seq<char> {
    if starts_with(raw, sha) {
        trim_start_char(raw.subrange(sha.len() as int, raw.len() as int), '\n')
    } else {
        let nl = match first_index(raw, '\n') {
            Some(i) => i,
            None => 0,
        };
        if all_hex(raw.subrange(0, nl)) {
            trim_start_char(raw.subrange(nl, raw.len() as int), '\n')
        } else {
            raw
        }
    }
}

/// The header index of the first `k` diff lines: for each line that starts with
/// `diff --git`, the path after its last ` b/`, and the line's index.
pub open spec fn file_headers(ls: Seq<Seq<char>>, k: int) -> Seq<(Seq<char>, int)>
    decreases k,
{
    if k <= 0 {
        Seq::empty()
    } else {
        let h = file_headers(ls, k - 1);
        if starts_with(ls[k - 1], "diff --git"@) {
            h.push((after_last(ls[k - 1], " b/"@), k - 1))
        } else {
            h
        }
    }
}

/// The diff of a commit from the outputs of [`diff_files_args`] and
/// [`diff_patch_args`].
pub open spec fn diff_view(sha: Seq<char>, files_output: Seq<char>, raw_output: Seq<char>) -> DiffView {
    let ls = lines(strip_sha_line(raw_output, sha));
    DiffView {
        lines: ls,
        file_header_lines: file_headers(ls, ls.len() as int),
        files: non_empty_only(lines(files_output)),
    }
}

/// The non-empty ranges of `r`, as strings.
fn non_empty_strings(cs: &[char], r: &Vec<(usize, usize)>) -> (v: Vec<String>)
    requires
        ranges_within(r@, 0, cs@.len() as int),
    ensures
        v.deep_view() == non_empty_only(range_views(cs@, r@)),
{
    let mut v: Vec<String> = Vec::new();
    let mut k: usize = 0;
    let ghost all = range_views(cs@, r@);
    proof {
        reveal_with_fuel(Seq::filter, 1);
    }
    assert(all.take(0) =~= Seq::<Seq<char>>::empty());
    assert(v.deep_view() =~= non_empty_only(all.take(0)));
    while k < r.len()
        invariant
            k <= r@.len(),
            all == range_views(cs@, r@),
            ranges_within(r@, 0, cs@.len() as int),
            v.deep_view() == non_empty_only(all.take(k as int)),
        decreases r@.len() - k,
    {
        let (a, b) = r[k];
        assert(r@[k as int] == (a, b));
        assert(all[k as int] == cs@.subrange(a as int, b as int));
        assert(all.take(k + 1) =~= all.take(k as int).push(all[k as int]));
        proof {
            crate::text::lemma_non_empty_only_push(all.take(k as int), all[k as int]);
        }
        if a < b {
            let ghost prev = v.deep_view();
            v.push(string_of(cs, a, b));
            assert(v.deep_view() =~= prev.push(cs@.subrange(a as int, b as int)));
        }
        k = k + 1;
    }
    assert(all.take(r@.len() as int) =~= all);
    v
}

/// The start of `strip_sha_line(cs[0..], sha)` within `cs`.
fn sha_line_end(cs: &[char], sha: &[char]) -> (a: usize)
    ensures
        a <= cs@.len(),
        cs@.subrange(a as int, cs@.len() as int) == strip_sha_line(cs@, sha@),
{
    let n = cs.len();
    assert(cs@.subrange(0, n as int) =~= cs@);
    if starts_with_in(cs, 0, n, sha) {
        trim_start_char_from(cs, sha.len(), n, '\n')
    } else {
        let nl = match first_index_in(cs, 0, n, '\n') {
            Some(i) => {
                proof {
                    crate::text::lemma_first_index_in_range(cs@, '\n');
                }
                i
            },
            None => 0,
        };
        if all_hex_in(cs, 0, nl) {
            trim_start_char_from(cs, nl, n, '\n')
        } else {
            0
        }
    }
}

/// Load the diff for a commit from the outputs of [`diff_files_args`] and
/// [`diff_patch_args`]: the affected file paths, the diff's lines without the
/// commit SHA line, and the index of its `diff --git` header lines.
pub fn load_diff(sha: &str, files_output: &str, raw_output: &str) -> (d: DiffOutput)
    ensures
        d@ == diff_view(sha@, files_output@, raw_output@),
{
    let fc = chars_of(files_output);
    assert(fc@.subrange(0, fc@.len() as int) =~= files_output@);
    let fr = line_ranges(fc.as_slice(), 0, fc.len());
    let files = non_empty_strings(fc.as_slice(), &fr);

    let rc = chars_of(raw_output);
    let sc = chars_of(sha);
    let start = sha_line_end(rc.as_slice(), sc.as_slice());
    let lr = line_ranges(rc.as_slice(), start, rc.len());
    let lines = strings_of(rc.as_slice(), &lr);
    let ghost ls = lines.deep_view();
    assert(ls == crate::text::lines(strip_sha_line(raw_output@, sha@)));

    let header = chars_of("diff --git");
    let b_sep = chars_of(" b/");
    let mut file_header_lines: Vec<(String, usize)> = Vec::new();
    let mut i: usize = 0;
    assert(header_views(file_header_lines@) =~= file_headers(ls, 0));
    while i < lines.len()
        invariant
            i <= lines@.len(),
            ls == lines.deep_view(),
            header@ == "diff --git"@,
            b_sep@ == " b/"@,
            header_views(file_header_lines@) == file_headers(ls, i as int),
        decreases lines@.len() - i,
    {
        let lc = chars_of(lines[i].as_str());
        assert(ls[i as int] == lc@);
        assert(lc@.subrange(0, lc@.len() as int) =~= lc@);
        if starts_with_in(lc.as_slice(), 0, lc.len(), header.as_slice()) {
            let path_start = match last_occurrence_in(lc.as_slice(), 0, lc.len(), b_sep.as_slice()) {
                Some(k) => k + b_sep.len(),
                None => 0,
            };
            let path = string_of(lc.as_slice(), path_start, lc.len());
            assert(path@ == after_last(lc@, " b/"@));
            let ghost prev = file_header_lines@;
            file_header_lines.push((path, i));
            assert(header_views(file_header_lines@) =~= header_views(prev).push((path@, i as int)));
        }
        i = i + 1;
    }
    DiffOutput { lines, file_header_lines, files }
}

/// Law: every entry of the header index names a line of the diff that starts
/// with `diff --git` and whose `b/` path is the entry's path, and the entries
/// come in the order of their lines.
pub proof fn lemma_file_headers_point_to_headers(ls: Seq<Seq<char>>, k: int)
    requires
        0 <= k <= ls.len(),
    ensures
        forall|j: int|
            0 <= j < file_headers(ls, k).len() ==> 0 <= (#[trigger] file_headers(ls, k)[j]).1 < k
                && starts_with(ls[file_headers(ls, k)[j].1], "diff --git"@)
                && file_headers(ls, k)[j].0 == after_last(ls[file_headers(ls, k)[j].1], " b/"@),
        forall|j: int, m: int|
            0 <= j < m < file_headers(ls, k).len() ==> (#[trigger] file_headers(ls, k)[j]).1
                < (#[trigger] file_headers(ls, k)[m]).1,
    decreases k,
{
    if k > 0 {
        lemma_file_headers_point_to_headers(ls, k - 1);
        let h = file_headers(ls, k - 1);
        let f = file_headers(ls, k);
        assert forall|j: int| 0 <= j < h.len() implies f[j] == h[j] by {}
    }
}


// ---------------------------------------------------------------------------
// The reflog
// ---------------------------------------------------------------------------

/// Arguments that print the reflog: SHA, selector and subject of each entry.
pub fn reflog_args() -> (r: Vec<String>)
    ensures
        r.deep_view() == seq!["reflog"@, "--format=%H%x00%gd%x00%gs%x01"@],
{
    strings(&["reflog", "--format=%H%x00%gd%x00%gs%x01"])
}

/// The kind of a reflog action such as `commit (amend): message`: the text
/// before its first colon, trimmed; the whole action when it has no colon.
pub open spec fn action_type(action: Seq<char>) -> Seq<char> {
    match first_index(action, ':') {
        Some(p) => trim(action.subrange(0, p)),
        None => action,
    }
}

/// The SHA and the label (`<selector> <action type>`, e.g. `HEAD@{3} commit (amend)`)
/// of one reflog record; blank records and records of fewer than three fields
/// have none.
pub open spec fn reflog_entry(record: Seq<char>) -> Option<(Seq<char>, Seq<char>)> {
    let r = trim(record);
    if r.len() == 0 {
        None
    } else {
        let f = split(r, '\0');
        if f.len() < 3 {
            None
        } else {
            Some((trim(f[0]), trim(f[1]) + " "@ + action_type(trim(f[2]))))
        }
    }
}

/// Whether some entry has the SHA `sha`.
pub open spec fn has_sha(es: Seq<(Seq<char>, Seq<char>)>, sha: Seq<char>) -> bool {
    exists|i: int| 0 <= i < es.len() && (#[trigger] es[i]).0 == sha
}

/// The reflog entries of the records, keeping only the first (most recent)
/// entry of each SHA.
pub open spec fn reflog_entries(rs: Seq<Seq<char>>) -> Seq<(Seq<char>, Seq<char>)>
    decreases rs.len(),
{
    if rs.len() == 0 {
        Seq::empty()
    } else {
        let acc = reflog_entries(rs.drop_last());
        match reflog_entry(rs.last()) {
            Some(e) => if has_sha(acc, e.0) {
                acc
            } else {
                acc.push(e)
            },
            None => acc,
        }
    }
}

/// The reflog entries in the output of [`reflog_args`].
pub open spec fn reflog_of(output: Seq<char>) -> Seq<(Seq<char>, Seq<char>)> {
    reflog_entries(split(output, '\x01'))
}

pub open spec fn pair_views(ps: Seq<(String, String)>) -> Seq<(Seq<char>, Seq<char>)> {
    ps.map_values(|p: (String, String)| (p.0@, p.1@))
}

proof fn lemma_reflog_entries_take(rs: Seq<Seq<char>>, k: int)
    requires
        0 <= k < rs.len(),
    ensures
        reflog_entries(rs.take(k + 1)) == match reflog_entry(rs[k]) {
            Some(e) => if has_sha(reflog_entries(rs.take(k)), e.0) {
                reflog_entries(rs.take(k))
            } else {
                reflog_entries(rs.take(k)).push(e)
            },
            None => reflog_entries(rs.take(k)),
        },
{
    assert(rs.take(k + 1).drop_last() =~= rs.take(k));
}

/// Whether one of the strings equals `sha`.
pub fn contains_string(v: &Vec<String>, sha: &String) -> (b: bool)
    ensures
        b == exists|i: int| 0 <= i < v@.len() && (#[trigger] v@[i])@ == sha@,
{
    let mut k: usize = 0;
    while k < v.len()
        invariant
            k <= v@.len(),
            forall|i: int| 0 <= i < k ==> (#[trigger] v@[i])@ != sha@,
        decreases v@.len() - k,
    {
        if v[k] == *sha {
            return true;
        }
        k = k + 1;
    }
    false
}

/// Parse the reflog output of [`reflog_args`]: the SHAs it names, each once and
/// in order of first appearance, and beside them the label of each SHA's first
/// (most recent) entry.
fn reflog_pairs(output: &str) -> (r: (Vec<String>, Vec<(String, String)>))
    ensures
        pair_views(r.1@) == reflog_of(output@),
        r.0.deep_view() == reflog_of(output@).map_values(|e: (Seq<char>, Seq<char>)| e.0),
{
    let cs = chars_of(output);
    let ghost c = cs@;
    assert(c.subrange(0, c.len() as int) =~= output@);
    let records = split_ranges(cs.as_slice(), 0, cs.len(), Sep::Char('\x01'));
    let ghost rs = split(output@, '\x01');
    let mut shas: Vec<String> = Vec::new();
    let mut labels: Vec<(String, String)> = Vec::new();
    let mut k: usize = 0;
    assert(rs.take(0) =~= Seq::<Seq<char>>::empty());
    assert(pair_views(labels@) =~= Seq::<(Seq<char>, Seq<char>)>::empty());
    while k < records.len()
        invariant
            k <= records@.len(),
            c == cs@,
            range_views(c, records@) == rs,
            ranges_within(records@, 0, c.len() as int),
            pair_views(labels@) == reflog_entries(rs.take(k as int)),
            shas@.len() == labels@.len(),
            forall|i: int| 0 <= i < shas@.len() ==> (#[trigger] shas@[i])@ == labels@[i].0@,
        decreases records@.len() - k,
    {
        let (a, b) = records[k];
        assert(records@[k as int] == (a, b));
        assert(range_views(c, records@)[k as int] == c.subrange(a as int, b as int));
        proof {
            lemma_reflog_entries_take(rs, k as int);
        }
        let (ta, tb) = trim_bounds(cs.as_slice(), a, b);
        if ta < tb {
            let fields = split_ranges(cs.as_slice(), ta, tb, Sep::Char('\0'));
            if fields.len() >= 3 {
                let ghost fv = range_views(c, fields@);
                assert(fields@[0] == fields[0] && fields@[1] == fields[1] && fields@[2] == fields[2]);
                assert(fv[0] == c.subrange(fields[0].0 as int, fields[0].1 as int));
                assert(fv[1] == c.subrange(fields[1].0 as int, fields[1].1 as int));
                assert(fv[2] == c.subrange(fields[2].0 as int, fields[2].1 as int));
                let sha = trimmed(cs.as_slice(), fields[0].0, fields[0].1);
                let ghost acc = reflog_entries(rs.take(k as int));
                let seen = contains_string(&shas, &sha);
                assert(seen == has_sha(acc, sha@)) by {
                    if seen {
                        let i = choose|i: int| 0 <= i < shas@.len() && (#[trigger] shas@[i])@ == sha@;
                        assert(pair_views(labels@)[i].0 == sha@);
                    }
                    if has_sha(acc, sha@) {
                        let i = choose|i: int| 0 <= i < acc.len() && (#[trigger] acc[i]).0 == sha@;
                        assert(pair_views(labels@)[i] == (labels@[i].0@, labels@[i].1@));
                        assert(shas@[i]@ == sha@);
                    }
                }
                if !seen {
                    let mut label = trimmed(cs.as_slice(), fields[1].0, fields[1].1);
                    push_str(&mut label, " ");
                    let (aa, ab) = trim_bounds(cs.as_slice(), fields[2].0, fields[2].1);
                    let ghost action = c.subrange(aa as int, ab as int);
                    match first_index_in(cs.as_slice(), aa, ab, ':') {
                        Some(p) => {
                            proof {
                                crate::text::lemma_first_index_in_range(action, ':');
                            }
                            let (xa, xb) = trim_bounds(cs.as_slice(), aa, aa + p);
                            assert(c.subrange(aa as int, aa + p) =~= action.subrange(0, p as int));
                            crate::text::push_range(&mut label, cs.as_slice(), xa, xb);
                        },
                        None => {
                            crate::text::push_range(&mut label, cs.as_slice(), aa, ab);
                        },
                    }
                    assert(label@ =~= reflog_entry(rs[k as int])->Some_0.1);
                    let ghost prev = pair_views(labels@);
                    let sha2 = sha.clone();
                    labels.push((sha, label));
                    assert(pair_views(labels@) =~= prev.push((sha2@, label@)));
                    shas.push(sha2);
                }
            }
        }
        k = k + 1;
    }
    assert(rs.take(records@.len() as int) =~= rs);
    assert(shas.deep_view() =~= reflog_of(output@).map_values(
        |e: (Seq<char>, Seq<char>)| e.0,
    )) by {
        assert forall|i: int| 0 <= i < shas@.len() implies shas.deep_view()[i] == reflog_of(
            output@,
        )[i].0 by {
            assert(pair_views(labels@)[i] == (labels@[i].0@, labels@[i].1@));
        }
    }
    (shas, labels)
}

/// The entries whose SHA is not among `reachable`, in order.
pub open spec fn orphan_entries(
    es: Seq<(Seq<char>, Seq<char>)>,
    reachable: Seq<Seq<char>>,
) -> Seq<(Seq<char>, Seq<char>)>
    decreases es.len(),
{
    if es.len() == 0 {
        Seq::empty()
    } else {
        let acc = orphan_entries(es.drop_last(), reachable);
        if reachable.contains(es.last().0) {
            acc
        } else {
            acc.push(es.last())
        }
    }
}

/// The orphaned reflog entries: those of the output of [`reflog_args`] whose
/// SHA is not among `reachable`.
pub open spec fn reflog_orphans_of(output: Seq<char>, reachable: Seq<Seq<char>>) -> Seq<
    (Seq<char>, Seq<char>),
> {
    orphan_entries(reflog_of(output), reachable)
}

proof fn lemma_orphan_entries_take(es: Seq<(Seq<char>, Seq<char>)>, reachable: Seq<Seq<char>>, k: int)
    requires
        0 <= k < es.len(),
    ensures
        orphan_entries(es.take(k + 1), reachable) == if reachable.contains(es[k].0) {
            orphan_entries(es.take(k), reachable)
        } else {
            orphan_entries(es.take(k), reachable).push(es[k])
        },
{
    assert(es.take(k + 1).drop_last() =~= es.take(k));
}

/// Parse the reflog output of [`reflog_args`] and return the orphaned SHAs
/// (those not reachable from the normal refs, that is not among `reachable`:
/// the SHAs that loading the history without the reflog gives), each once and
/// in order of first appearance, along with the label of each SHA's first
/// (most recent) entry, so that the caller can annotate the commits after
/// loading. The caller looks up labels by SHA; no SHA occurs twice.
pub fn load_reflog_orphans(output: &str, reachable: &Vec<String>) -> (r: (
    Vec<String>,
    Vec<(String, String)>,
))
    ensures
        pair_views(r.1@) == reflog_orphans_of(output@, reachable.deep_view()),
        r.0.deep_view() == reflog_orphans_of(output@, reachable.deep_view()).map_values(
            |e: (Seq<char>, Seq<char>)| e.0,
        ),
{
    let (_all_shas, all) = reflog_pairs(output);
    let ghost es = pair_views(all@);
    let ghost rv = reachable.deep_view();
    let mut shas: Vec<String> = Vec::new();
    let mut labels: Vec<(String, String)> = Vec::new();
    let mut k: usize = 0;
    assert(es.take(0) =~= Seq::<(Seq<char>, Seq<char>)>::empty());
    assert(pair_views(labels@) =~= Seq::<(Seq<char>, Seq<char>)>::empty());
    while k < all.len()
        invariant
            k <= all@.len(),
            es == pair_views(all@),
            rv == reachable.deep_view(),
            pair_views(labels@) == orphan_entries(es.take(k as int), rv),
            shas@.len() == labels@.len(),
            forall|i: int| 0 <= i < shas@.len() ==> (#[trigger] shas@[i])@ == labels@[i].0@,
        decreases all@.len() - k,
    {
        proof {
            lemma_orphan_entries_take(es, rv, k as int);
        }
        let sha = all[k].0.clone();
        let label = all[k].1.clone();
        assert(es[k as int] == (sha@, label@));
        let found = contains_string(reachable, &sha);
        assert(found == rv.contains(sha@)) by {
            if found {
                let i = choose|i: int| 0 <= i < reachable@.len() && (#[trigger] reachable@[i])@ == sha@;
                assert(rv[i] == sha@);
            }
            if rv.contains(sha@) {
                let i = choose|i: int| 0 <= i < rv.len() && rv[i] == sha@;
                assert(reachable@[i]@ == sha@);
            }
        }
        if !found {
            let ghost prev = pair_views(labels@);
            let sha2 = sha.clone();
            labels.push((sha, label));
            assert(pair_views(labels@) =~= prev.push(es[k as int]));
            shas.push(sha2);
        }
        k = k + 1;
    }
    assert(es.take(all@.len() as int) =~= es);
    assert(shas.deep_view() =~= reflog_orphans_of(output@, rv).map_values(
        |e: (Seq<char>, Seq<char>)| e.0,
    )) by {
        assert forall|i: int| 0 <= i < shas@.len() implies shas.deep_view()[i] == reflog_orphans_of(
            output@,
            rv,
        )[i].0 by {
            assert(pair_views(labels@)[i] == (labels@[i].0@, labels@[i].1@));
        }
    }
    (shas, labels)
}

/// The orphans are exactly the entries whose SHA is not reachable, and keep
/// SHAs distinct when the entries had them distinct.
proof fn lemma_orphan_entries(es: Seq<(Seq<char>, Seq<char>)>, reachable: Seq<Seq<char>>)
    ensures
        forall|i: int|
            0 <= i < orphan_entries(es, reachable).len() ==> !reachable.contains(
                (#[trigger] orphan_entries(es, reachable)[i]).0,
            ) && es.contains(orphan_entries(es, reachable)[i]),
        forall|j: int|
            0 <= j < es.len() && !reachable.contains((#[trigger] es[j]).0) ==> orphan_entries(
                es,
                reachable,
            ).contains(es[j]),
        (forall|i: int, j: int| 0 <= i < j < es.len() ==> (#[trigger] es[i]).0 != (#[trigger] es[j]).0)
            ==> forall|i: int, j: int|
            0 <= i < j < orphan_entries(es, reachable).len() ==> (#[trigger] orphan_entries(
                es,
                reachable,
            )[i]).0 != (#[trigger] orphan_entries(es, reachable)[j]).0,
    decreases es.len(),
{
    if es.len() > 0 {
        let d = es.drop_last();
        lemma_orphan_entries(d, reachable);
        let acc = orphan_entries(d, reachable);
        let o = orphan_entries(es, reachable);
        assert forall|i: int| 0 <= i < o.len() implies !reachable.contains((#[trigger] o[i]).0)
            && es.contains(o[i]) by {
            if i < acc.len() {
                assert(o[i] == acc[i]);
                let m = choose|m: int| 0 <= m < d.len() && d[m] == acc[i];
                assert(es[m] == d[m]);
            } else {
                assert(es[es.len() - 1] == es.last());
            }
        }
        assert forall|j: int| 0 <= j < es.len() && !reachable.contains((#[trigger] es[j]).0) implies o.contains(
            es[j],
        ) by {
            if j < es.len() - 1 {
                assert(d[j] == es[j]);
                let m = choose|m: int| 0 <= m < acc.len() && acc[m] == d[j];
                assert(o[m] == acc[m]);
            } else {
                assert(o[o.len() - 1] == es.last());
            }
        }
        if forall|i: int, j: int| 0 <= i < j < es.len() ==> (#[trigger] es[i]).0 != (#[trigger] es[j]).0 {
            assert forall|i: int, j: int| 0 <= i < j < d.len() implies (#[trigger] d[i]).0 != (
            #[trigger] d[j]).0 by {
                assert(d[i] == es[i] && d[j] == es[j]);
            }
            assert forall|i: int, j: int| 0 <= i < j < o.len() implies (#[trigger] o[i]).0 != (
            #[trigger] o[j]).0 by {
                if j < acc.len() {
                    assert(o[i] == acc[i] && o[j] == acc[j]);
                } else {
                    assert(o[i] == acc[i]);
                    let m = choose|m: int| 0 <= m < d.len() && d[m] == acc[i];
                    assert(es[m] == d[m]);
                    assert(o[j] == es.last());
                    assert(es[es.len() - 1] == es.last());
                }
            }
        }
    }
}

/// Law: the orphaned reflog entries are exactly the reflog's entries (the first
/// per SHA) whose SHA is not reachable; no SHA occurs twice among them.
pub proof fn lemma_reflog_orphans(output: Seq<char>, reachable: Seq<Seq<char>>)
    ensures
        forall|i: int|
            0 <= i < reflog_orphans_of(output, reachable).len() ==> !reachable.contains(
                (#[trigger] reflog_orphans_of(output, reachable)[i]).0,
            ) && reflog_of(output).contains(reflog_orphans_of(output, reachable)[i]),
        forall|j: int|
            0 <= j < reflog_of(output).len() && !reachable.contains((#[trigger] reflog_of(output)[j]).0)
                ==> reflog_orphans_of(output, reachable).contains(reflog_of(output)[j]),
        forall|i: int, j: int|
            0 <= i < j < reflog_orphans_of(output, reachable).len() ==> (#[trigger] reflog_orphans_of(
                output,
                reachable,
            )[i]).0 != (#[trigger] reflog_orphans_of(output, reachable)[j]).0,
{
    lemma_reflog_shas_unique(split(output, '\x01'));
    lemma_orphan_entries(reflog_of(output), reachable);
}

/// The action type of a trimmed subject with a colon is the trimmed text
/// before its first colon.
proof fn lemma_action_type_colon(a: Seq<char>, b: Seq<char>)
    requires
        !a.contains(':'),
    ensures
        action_type(trim(a + seq![':'] + b)) == trim(a),
{
    let ta = trim_start(a);
    let cb = seq![':'] + b;
    assert(a + seq![':'] + b =~= a + cb);
    assert(cb[0] == ':');
    lemma_trim_start_concat(a, cb);
    let tc = ta + seq![':'];
    assert(ta + cb =~= tc + b);
    assert(tc.last() == ':');
    lemma_trim_end_concat(tc, b);
    let t = tc + trim_end(b);
    assert(trim(a + seq![':'] + b) == t);
    lemma_trim_start_suffix(a);
    let k = choose|k: int| 0 <= k <= a.len() && ta == a.subrange(k, a.len() as int);
    assert forall|i: int| 0 <= i < ta.len() implies t[i] != ':' by {
        assert(t[i] == ta[i]);
        assert(ta[i] == a[k + i]);
    }
    assert(t[ta.len() as int] == ':');
    lemma_first_index_at(t, ':', ta.len() as int);
    assert(t.subrange(0, ta.len() as int) =~= ta);
    assert(trim(ta) == trim_end(trim_start(ta)));
    assert(trim_start(ta) == ta);
}

/// The action type of a trimmed subject without a colon is that subject.
proof fn lemma_action_type_no_colon(subj: Seq<char>)
    requires
        !subj.contains(':'),
    ensures
        action_type(trim(subj)) == trim(subj),
{
    lemma_trim_lacks(subj, ':');
    let t = trim(subj);
    assert forall|i: int| 0 <= i < t.len() implies t[i] != ':' by {}
    lemma_first_index_below_none(t, ':', t.len() as int);
}

/// Law: a reflog record of a SHA, a selector and a subject (none holding NUL
/// or SOH, no white space around the record) ended by SOH reads back as one
/// entry: the trimmed SHA, labelled with the trimmed selector, one space, and
/// the trimmed text before the subject's first colon (the whole trimmed
/// subject when it has no colon).
pub proof fn lemma_reflog_record_label(sha: Seq<char>, sel: Seq<char>, subj: Seq<char>)
    requires
        !sha.contains('\0') && !sha.contains('\x01'),
        !sel.contains('\0') && !sel.contains('\x01'),
        !subj.contains('\0') && !subj.contains('\x01'),
        trim(joined(seq![sha, sel, subj], '\0')) == joined(seq![sha, sel, subj], '\0'),
    ensures
        ({
            let es = reflog_of(joined(seq![sha, sel, subj], '\0') + seq!['\x01']);
            &&& es.len() == 1
            &&& es[0].0 == trim(sha)
            &&& forall|a: Seq<char>, b: Seq<char>|
                subj == a + seq![':'] + b && !a.contains(':') ==> es[0].1 == trim(sel) + " "@ + trim(
                    a,
                )
            &&& !subj.contains(':') ==> es[0].1 == trim(sel) + " "@ + trim(subj)
        }),
{
    let f = seq![sha, sel, subj];
    assert forall|i: int| 0 <= i < f.len() implies !(#[trigger] f[i]).contains('\0') && !f[i].contains(
        '\x01',
    ) by {}
    let r = joined(f, '\0');
    assert(f.drop_last().drop_last() =~= seq![sha]);
    assert(r.len() > 0);
    lemma_joined_lacks(f, '\0', '\x01');
    lemma_split_no_sep(r, '\x01');
    lemma_split_after_sep(r, Seq::empty(), '\x01');
    assert(r + seq!['\x01'] =~= r + seq!['\x01'] + Seq::<char>::empty());
    let rs = split(r + seq!['\x01'], '\x01');
    assert(rs =~= seq![r, Seq::<char>::empty()]);
    lemma_split_joined(f, '\0');
    let e = (trim(sha), trim(sel) + " "@ + action_type(trim(subj)));
    assert(reflog_entry(r) == Some(e));
    assert(trim(Seq::<char>::empty()) =~= Seq::<char>::empty());
    assert(reflog_entry(Seq::<char>::empty()) is None);
    assert(rs.drop_last() =~= seq![r]);
    assert(seq![r].drop_last() =~= Seq::<Seq<char>>::empty());
    assert(seq![r].last() == r);
    assert(!has_sha(Seq::<(Seq<char>, Seq<char>)>::empty(), e.0));
    assert(Seq::<(Seq<char>, Seq<char>)>::empty().push(e) =~= seq![e]);
    assert(reflog_entries(seq![r].drop_last()) == Seq::<(Seq<char>, Seq<char>)>::empty());
    assert(reflog_entries(seq![r]) == seq![e]);
    assert(rs.last() == Seq::<char>::empty());
    assert(reflog_entries(rs) == reflog_entries(seq![r]));
    let es = reflog_of(r + seq!['\x01']);
    assert(es == seq![e]);
    assert forall|a: Seq<char>, b: Seq<char>|
        subj == a + seq![':'] + b && !a.contains(':') implies es[0].1 == trim(sel) + " "@ + trim(
        a,
    ) by {
        lemma_action_type_colon(a, b);
    }
    if !subj.contains(':') {
        lemma_action_type_no_colon(subj);
    }
}

/// Law: no SHA has two reflog entries.
pub proof fn lemma_reflog_shas_unique(rs: Seq<Seq<char>>)
    ensures
        forall|i: int, j: int|
            0 <= i < j < reflog_entries(rs).len() ==> (#[trigger] reflog_entries(rs)[i]).0
                != (#[trigger] reflog_entries(rs)[j]).0,
    decreases rs.len(),
{
    if rs.len() > 0 {
        lemma_reflog_shas_unique(rs.drop_last());
        let acc = reflog_entries(rs.drop_last());
        let r = reflog_entries(rs);
        assert forall|i: int, j: int| 0 <= i < j < r.len() implies (#[trigger] r[i]).0 != (
        #[trigger] r[j]).0 by {
            if j < acc.len() {
                assert(r[i] == acc[i] && r[j] == acc[j]);
            } else {
                assert(r[i] == acc[i]);
                assert(!has_sha(acc, r[j].0));
            }
        }
    }
}

/// Law: the entry kept for a SHA is that of its first (most recent) record.
pub proof fn lemma_reflog_keeps_first(rs: Seq<Seq<char>>, j: int)
    requires
        0 <= j < rs.len(),
        reflog_entry(rs[j]) is Some,
        forall|m: int|
            0 <= m < j ==> (#[trigger] reflog_entry(rs[m])) is None || reflog_entry(rs[m])->Some_0.0
                != reflog_entry(rs[j])->Some_0.0,
    ensures
        reflog_entries(rs).contains(reflog_entry(rs[j])->Some_0),
    decreases rs.len(),
{
    let e = reflog_entry(rs[j])->Some_0;
    if j < rs.len() - 1 {
        lemma_reflog_keeps_first(rs.drop_last(), j);
        assert(rs.drop_last()[j] == rs[j]);
        let acc = reflog_entries(rs.drop_last());
        let i = choose|i: int| 0 <= i < acc.len() && acc[i] == e;
        assert(reflog_entries(rs)[i] == e);
    } else {
        lemma_reflog_sha_origin(rs.drop_last(), e.0);
        let acc = reflog_entries(rs.drop_last());
        assert(!has_sha(acc, e.0)) by {
            if has_sha(acc, e.0) {
                let m = choose|m: int|
                    0 <= m < rs.drop_last().len() && (#[trigger] reflog_entry(rs.drop_last()[m]))
                        is Some && reflog_entry(rs.drop_last()[m])->Some_0.0 == e.0;
                assert(rs.drop_last()[m] == rs[m]);
            }
        }
        assert(reflog_entries(rs).last() == e);
    }
}

/// Every SHA that has an entry comes from some record.
proof fn lemma_reflog_sha_origin(rs: Seq<Seq<char>>, sha: Seq<char>)
    ensures
        has_sha(reflog_entries(rs), sha) ==> exists|m: int|
            0 <= m < rs.len() && (#[trigger] reflog_entry(rs[m])) is Some && reflog_entry(
                rs[m],
            )->Some_0.0 == sha,
    decreases rs.len(),
{
    if rs.len() > 0 {
        lemma_reflog_sha_origin(rs.drop_last(), sha);
        let acc = reflog_entries(rs.drop_last());
        if has_sha(reflog_entries(rs), sha) {
            if has_sha(acc, sha) {
                let m = choose|m: int|
                    0 <= m < rs.drop_last().len() && (#[trigger] reflog_entry(rs.drop_last()[m]))
                        is Some && reflog_entry(rs.drop_last()[m])->Some_0.0 == sha;
                assert(rs.drop_last()[m] == rs[m]);
            } else {
                let r = reflog_entries(rs);
                let i = choose|i: int| 0 <= i < r.len() && (#[trigger] r[i]).0 == sha;
                assert(i == r.len() - 1);
                assert(reflog_entry(rs[rs.len() - 1]) is Some);
            }
        }
    }
}

// ---------------------------------------------------------------------------
// Interactive rebase
// ---------------------------------------------------------------------------

/// Arguments that list the commits from HEAD down to (but not including)
/// `base_sha`, oldest first: SHA, short SHA and subject of each.
pub fn load_rebase_commits_args(base_sha: &str) -> (r: Vec<String>)
    ensures
        r.deep_view() == seq![
            "log"@,
            "--reverse"@,
            "--topo-order"@,
            "--format=%H%x00%h%x00%s"@,
            base_sha@ + "..HEAD"@,
        ],
{
    let mut r = strings(&["log", "--reverse", "--topo-order", "--format=%H%x00%h%x00%s"]);
    let mut range = base_sha.to_owned();
    push_str(&mut range, "..HEAD");
    let ghost prev = r.deep_view();
    r.push(range);
    assert(r.deep_view() =~= prev.push(range@));
    r
}

/// The rebase entry of one output line: blank lines and lines of fewer than
/// three fields have none; every entry starts as `pick`.
pub open spec fn rebase_entry_of(line: Seq<char>) -> Option<RebaseEntryView> {
    let t = trim(line);
    if t.len() == 0 {
        None
    } else {
        let f = split(t, '\0');
        if f.len() < 3 {
            None
        } else {
            Some(
                RebaseEntryView {
                    sha: f[0],
                    short_sha: f[1],
                    subject: f[2],
                    action: RebaseAction::Pick,
                },
            )
        }
    }
}

/// The rebase entries of the lines, in order.
pub open spec fn rebase_entries(ls: Seq<Seq<char>>) -> Seq<RebaseEntryView>
    decreases ls.len(),
{
    if ls.len() == 0 {
        Seq::empty()
    } else {
        let r = rebase_entries(ls.drop_last());
        match rebase_entry_of(ls.last()) {
            Some(e) => r.push(e),
            None => r,
        }
    }
}

proof fn lemma_rebase_entries_take(ls: Seq<Seq<char>>, k: int)
    requires
        0 <= k < ls.len(),
    ensures
        rebase_entries(ls.take(k + 1)) == match rebase_entry_of(ls[k]) {
            Some(e) => rebase_entries(ls.take(k)).push(e),
            None => rebase_entries(ls.take(k)),
        },
{
    assert(ls.take(k + 1).drop_last() =~= ls.take(k));
}

/// Load the commits an interactive rebase onto the base would replay, from
/// the output of [`load_rebase_commits_args`]: oldest first (the order of the
/// rebase todo list), each marked `pick`; an error when there are none.
pub fn load_rebase_commits(output: &str) -> (r: Result<Vec<RebaseEntry>, String>)
    ensures
        ({
            let es = rebase_entries(lines(output@));
            if es.len() == 0 {
                r is Err && r->Err_0@
                    == "No commits to rebase (HEAD is already at or behind the base)."@
            } else {
                r is Ok && entry_views(r->Ok_0@) == es
            }
        }),
{
    let cs = chars_of(output);
    let ghost c = cs@;
    assert(c.subrange(0, c.len() as int) =~= output@);
    let lr = line_ranges(cs.as_slice(), 0, cs.len());
    let ghost ls = lines(output@);
    let mut entries: Vec<RebaseEntry> = Vec::new();
    let mut k: usize = 0;
    assert(ls.take(0) =~= Seq::<Seq<char>>::empty());
    assert(entry_views(entries@) =~= Seq::<RebaseEntryView>::empty());
    while k < lr.len()
        invariant
            k <= lr@.len(),
            c == cs@,
            range_views(c, lr@) == ls,
            ranges_within(lr@, 0, c.len() as int),
            entry_views(entries@) == rebase_entries(ls.take(k as int)),
        decreases lr@.len() - k,
    {
        let (a, b) = lr[k];
        assert(lr@[k as int] == (a, b));
        assert(range_views(c, lr@)[k as int] == c.subrange(a as int, b as int));
        proof {
            lemma_rebase_entries_take(ls, k as int);
        }
        let (ta, tb) = trim_bounds(cs.as_slice(), a, b);
        if ta < tb {
            let fields = split_ranges(cs.as_slice(), ta, tb, Sep::Char('\0'));
            if fields.len() >= 3 {
                let ghost fv = range_views(c, fields@);
                assert(fields@[0] == fields[0] && fields@[1] == fields[1] && fields@[2] == fields[2]);
                assert(fv[0] == c.subrange(fields[0].0 as int, fields[0].1 as int));
                assert(fv[1] == c.subrange(fields[1].0 as int, fields[1].1 as int));
                assert(fv[2] == c.subrange(fields[2].0 as int, fields[2].1 as int));
                let e = RebaseEntry {
                    sha: string_of(cs.as_slice(), fields[0].0, fields[0].1),
                    short_sha: string_of(cs.as_slice(), fields[1].0, fields[1].1),
                    subject: string_of(cs.as_slice(), fields[2].0, fields[2].1),
                    action: RebaseAction::Pick,
                };
                proof {
                    lemma_entry_views_push(entries@, e);
                }
                entries.push(e);
            }
        }
        k = k + 1;
    }
    assert(ls.take(lr@.len() as int) =~= ls);
    if entries.len() == 0 {
        return Err("No commits to rebase (HEAD is already at or behind the base).".to_owned());
    }
    Ok(entries)
}

/// The rebase todo script: one `<keyword> <short sha> <subject>` line per entry.
pub open spec fn todo_text(es: Seq<RebaseEntryView>) -> Seq<char>
    decreases es.len(),
{
    if es.len() == 0 {
        Seq::empty()
    } else {
        let e = es.last();
        todo_text(es.drop_last()) + action_keyword(e.action) + " "@ + e.short_sha + " "@ + e.subject
            + "\n"@
    }
}

/// Build the rebase todo content for the given sequence of entries.
pub fn rebase_todo(entries: &[RebaseEntry]) -> (todo: String)
    ensures
        todo@ == todo_text(entry_views(entries@)),
{
    let mut todo = String::new();
    let ghost es = entry_views(entries@);
    let mut k: usize = 0;
    assert(es.take(0) =~= Seq::<RebaseEntryView>::empty());
    while k < entries.len()
        invariant
            k <= entries@.len(),
            es == entry_views(entries@),
            todo@ == todo_text(es.take(k as int)),
        decreases entries@.len() - k,
    {
        let entry = &entries[k];
        assert(es[k as int] == entry@);
        push_str(&mut todo, entry.action.keyword());
        push_str(&mut todo, " ");
        push_str(&mut todo, entry.short_sha.as_str());
        push_str(&mut todo, " ");
        push_str(&mut todo, entry.subject.as_str());
        push_str(&mut todo, "\n");
        assert(es.take(k + 1).drop_last() =~= es.take(k as int));
        k = k + 1;
        assert(todo@ =~= todo_text(es.take(k as int)));
    }
    assert(es.take(entries@.len() as int) =~= es);
    todo
}

/// A paused rebase: git could not apply a commit.
pub open spec fn rebase_conflict(stdout: Seq<char>, stderr: Seq<char>) -> bool {
    crate::text::contains_seq(trim(stderr), "could not apply"@) || crate::text::contains_seq(
        trim(stderr),
        "CONFLICT"@,
    ) || crate::text::contains_seq(trim(stdout), "could not apply"@)
}

/// What an interactive rebase run reports: its output (trimmed) on success; on
/// failure, a paused rebase when git could not apply a commit, else the failure,
/// each with git's message (trimmed).
pub fn rebase_interactive_result(success: bool, stdout: &str, stderr: &str) -> (r: Result<
    String,
    String,
>)
    ensures
        success ==> r is Ok && r->Ok_0@ == trim(stdout@),
        !success && rebase_conflict(stdout@, stderr@) ==> r is Err && r->Err_0@
            == "Rebase paused due to conflicts. "@ + trim(stderr@),
        !success && !rebase_conflict(stdout@, stderr@) ==> r is Err && r->Err_0@
            == "git rebase -i failed: "@ + trim(stderr@),
{
    let out = crate::text::trim_str(stdout);
    if success {
        return Ok(out);
    }
    let err = crate::text::trim_str(stderr);
    let ec = chars_of(err.as_str());
    let oc = chars_of(out.as_str());
    assert(ec@.subrange(0, ec@.len() as int) =~= ec@);
    assert(oc@.subrange(0, oc@.len() as int) =~= oc@);
    let could_not = chars_of("could not apply");
    let conflict = chars_of("CONFLICT");
    let paused = crate::text::contains_in(ec.as_slice(), 0, ec.len(), could_not.as_slice())
        || crate::text::contains_in(ec.as_slice(), 0, ec.len(), conflict.as_slice())
        || crate::text::contains_in(oc.as_slice(), 0, oc.len(), could_not.as_slice());
    let mut msg = if paused {
        "Rebase paused due to conflicts. ".to_owned()
    } else {
        "git rebase -i failed: ".to_owned()
    };
    push_str(&mut msg, err.as_str());
    Err(msg)
}


// ---------------------------------------------------------------------------
// Operations in progress
// ---------------------------------------------------------------------------

/// The label of an operation in progress.
pub open spec fn op_label(op: InProgressOp) -> Seq<char> {
    match op {
        InProgressOp::Rebase => "Rebase"@,
        InProgressOp::CherryPick => "Cherry-pick"@,
        InProgressOp::Merge => "Merge"@,
        InProgressOp::Bisect => "Bisect"@,
        InProgressOp::Revert => "Revert"@,
    }
}

/// Whether an operation can be continued.
pub open spec fn op_continues(op: InProgressOp) -> bool {
    op is Rebase || op is CherryPick || op is Revert
}

impl InProgressOp {
    /// Human-readable label for display in the UI.
    pub fn label(&self) -> (l: &'static str)
        ensures
            l@ == op_label(*self),
    {
        match self {
            InProgressOp::Rebase => "Rebase",
            InProgressOp::CherryPick => "Cherry-pick",
            InProgressOp::Merge => "Merge",
            InProgressOp::Bisect => "Bisect",
            InProgressOp::Revert => "Revert",
        }
    }

    /// Description of the abort action.
    pub fn abort_label(&self) -> (l: &'static str)
        ensures
            l@ == match *self {
                InProgressOp::Rebase => "Abort rebase"@,
                InProgressOp::CherryPick => "Abort cherry-pick"@,
                InProgressOp::Merge => "Abort merge"@,
                InProgressOp::Bisect => "Reset bisect"@,
                InProgressOp::Revert => "Abort revert"@,
            },
    {
        match self {
            InProgressOp::Rebase => "Abort rebase",
            InProgressOp::CherryPick => "Abort cherry-pick",
            InProgressOp::Merge => "Abort merge",
            InProgressOp::Bisect => "Reset bisect",
            InProgressOp::Revert => "Abort revert",
        }
    }

    /// Whether this operation supports `--continue`.
    pub fn supports_continue(&self) -> (b: bool)
        ensures
            b == op_continues(*self),
    {
        match self {
            InProgressOp::Rebase | InProgressOp::CherryPick | InProgressOp::Revert => true,
            _ => false,
        }
    }

    /// Description of the continue action.
    pub fn continue_label(&self) -> (l: &'static str)
        ensures
            l@ == match *self {
                InProgressOp::Rebase => "Continue rebase"@,
                InProgressOp::CherryPick => "Continue cherry-pick"@,
                InProgressOp::Revert => "Continue revert"@,
                _ => "Continue"@,
            },
    {
        match self {
            InProgressOp::Rebase => "Continue rebase",
            InProgressOp::CherryPick => "Continue cherry-pick",
            InProgressOp::Revert => "Continue revert",
            _ => "Continue",
        }
    }
}

/// Arguments that print the path of the `.git` directory (handles worktrees too).
pub fn git_dir_args() -> (r: Vec<String>)
    ensures
        r.deep_view() == seq!["rev-parse"@, "--git-dir"@],
{
    strings(&["rev-parse", "--git-dir"])
}

/// The `.git` directory from the trimmed output `dir` of [`git_dir_args`]:
/// itself when it is an absolute path, else relative to the repository.
pub fn git_dir_path(repo_path: &str, dir: &str, absolute: bool) -> (r: String)
    ensures
        r@ == if absolute {
            dir@
        } else {
            repo_path@ + "/"@ + dir@
        },
{
    if absolute {
        dir.to_owned()
    } else {
        let mut r = repo_path.to_owned();
        push_str(&mut r, "/");
        push_str(&mut r, dir);
        r
    }
}

/// Which marker files and directories exist inside the `.git` directory.
pub struct GitDirMarkers {
    /// `rebase-merge/`
    pub rebase_merge: bool,
    /// `rebase-apply/`
    pub rebase_apply: bool,
    /// `CHERRY_PICK_HEAD`
    pub cherry_pick_head: bool,
    /// `MERGE_HEAD`
    pub merge_head: bool,
    /// `BISECT_LOG`
    pub bisect_log: bool,
    /// `REVERT_HEAD`
    pub revert_head: bool,
}

/// Detect any in-progress git operation from the marker files inside the
/// `.git` directory, in priority order (rebase is most complex and comes first).
pub fn detect_in_progress_op(markers: &GitDirMarkers) -> (r: Option<InProgressOp>)
    ensures
        r == if markers.rebase_merge || markers.rebase_apply {
            Some(InProgressOp::Rebase)
        } else if markers.cherry_pick_head {
            Some(InProgressOp::CherryPick)
        } else if markers.merge_head {
            Some(InProgressOp::Merge)
        } else if markers.bisect_log {
            Some(InProgressOp::Bisect)
        } else if markers.revert_head {
            Some(InProgressOp::Revert)
        } else {
            None
        },
{
    if markers.rebase_merge || markers.rebase_apply {
        return Some(InProgressOp::Rebase);
    }
    if markers.cherry_pick_head {
        return Some(InProgressOp::CherryPick);
    }
    if markers.merge_head {
        return Some(InProgressOp::Merge);
    }
    if markers.bisect_log {
        return Some(InProgressOp::Bisect);
    }
    if markers.revert_head {
        return Some(InProgressOp::Revert);
    }
    None
}

/// The arguments that abort an operation.
pub open spec fn abort_args(op: InProgressOp) -> Seq<Seq<char>> {
    match op {
        InProgressOp::Rebase => seq!["rebase"@, "--abort"@],
        InProgressOp::CherryPick => seq!["cherry-pick"@, "--abort"@],
        InProgressOp::Merge => seq!["merge"@, "--abort"@],
        InProgressOp::Bisect => seq!["bisect"@, "reset"@],
        InProgressOp::Revert => seq!["revert"@, "--abort"@],
    }
}

/// Abort the given in-progress operation.
pub fn abort_op(op: &InProgressOp) -> (r: Vec<String>)
    ensures
        r.deep_view() == abort_args(*op),
{
    match op {
        InProgressOp::Rebase => strings(&["rebase", "--abort"]),
        InProgressOp::CherryPick => strings(&["cherry-pick", "--abort"]),
        InProgressOp::Merge => strings(&["merge", "--abort"]),
        InProgressOp::Bisect => strings(&["bisect", "reset"]),
        InProgressOp::Revert => strings(&["revert", "--abort"]),
    }
}

/// The arguments that continue an operation, for those that can be continued.
pub open spec fn continue_args(op: InProgressOp) -> Option<Seq<Seq<char>>> {
    match op {
        InProgressOp::Rebase => Some(seq!["rebase"@, "--continue"@]),
        InProgressOp::CherryPick => Some(seq!["cherry-pick"@, "--continue"@]),
        InProgressOp::Revert => Some(seq!["revert"@, "--continue"@]),
        _ => None,
    }
}

/// Continue the given in-progress operation (only valid for rebase, cherry-pick, revert).
pub fn continue_op(op: &InProgressOp) -> (r: Result<Vec<String>, String>)
    ensures
        match continue_args(*op) {
            Some(a) => r is Ok && r->Ok_0.deep_view() == a,
            None => r is Err && r->Err_0@ == op_label(*op) + " does not support --continue"@,
        },
{
    match op {
        InProgressOp::Rebase => Ok(strings(&["rebase", "--continue"])),
        InProgressOp::CherryPick => Ok(strings(&["cherry-pick", "--continue"])),
        InProgressOp::Revert => Ok(strings(&["revert", "--continue"])),
        _ => {
            let mut m = op.label().to_owned();
            push_str(&mut m, " does not support --continue");
            Err(m)
        },
    }
}

/// Law: `continue_op` gives a command exactly for the operations whose
/// `supports_continue` holds, and the error otherwise.
pub proof fn lemma_continue_iff_supported(op: InProgressOp)
    ensures
        continue_args(op) is Some <==> op_continues(op),
{
}

// ---------------------------------------------------------------------------
// Cherry-picking several commits
// ---------------------------------------------------------------------------

/// What to do next while cherry-picking several commits.
#[derive(Debug)]
pub enum CherryPickStep {
    /// Run git with these arguments and report its outcome.
    Run(Vec<String>),
    /// Finished: `Ok(count)` when every pick succeeded, or `Err((applied, message))`
    /// when one failed, where `applied` is how many were applied before it.
    Done(Result<usize, (usize, String)>),
}

/// The index of the first failed outcome among the first `k`.
pub open spec fn first_failure_below(outcomes: Seq<Result<String, String>>, k: int) -> Option<int>
    decreases k,
{
    if k <= 0 {
        None
    } else {
        match first_failure_below(outcomes, k - 1) {
            Some(i) => Some(i),
            None => if outcomes[k - 1] is Err {
                Some(k - 1)
            } else {
                None
            },
        }
    }
}

pub open spec fn first_failure(outcomes: Seq<Result<String, String>>) -> Option<int> {
    first_failure_below(outcomes, outcomes.len() as int)
}

proof fn lemma_first_failure_below(outcomes: Seq<Result<String, String>>, k: int)
    requires
        0 <= k <= outcomes.len(),
    ensures
        match first_failure_below(outcomes, k) {
            Some(i) => 0 <= i < k && outcomes[i] is Err && forall|j: int|
                0 <= j < i ==> outcomes[j] is Ok,
            None => forall|j: int| 0 <= j < k ==> outcomes[j] is Ok,
        },
    decreases k,
{
    if k > 0 {
        lemma_first_failure_below(outcomes, k - 1);
    }
}

/// Cherry-pick multiple commits in the given order (oldest first), one git run
/// at a time: given the outcomes of the picks run so far, the next pick to run,
/// or the result once every pick succeeded or one failed.
pub fn cherry_pick_multiple(shas: &[String], outcomes: &[Result<String, String>]) -> (step:
    CherryPickStep)
    ensures
        match first_failure(outcomes@) {
            Some(i) => step matches CherryPickStep::Done(Err((n, m))) && n == i && outcomes@[i]
                == Err::<String, String>(m),
            None => if outcomes@.len() < shas@.len() {
                step matches CherryPickStep::Run(args) && args.deep_view() == seq![
                    "cherry-pick"@,
                    shas@[outcomes@.len() as int]@,
                ]
            } else {
                step matches CherryPickStep::Done(Ok(n)) && n == shas@.len()
            },
        },
{
    let mut i: usize = 0;
    while i < outcomes.len()
        invariant
            i <= outcomes@.len(),
            first_failure_below(outcomes@, i as int) is None,
        decreases outcomes@.len() - i,
    {
        if let Err(e) = &outcomes[i] {
            proof {
                assert(first_failure_below(outcomes@, i + 1) == Some(i as int));
                lemma_first_failure_stable(outcomes@, i + 1, outcomes@.len() as int);
            }
            return CherryPickStep::Done(Err((i, e.clone())));
        }
        i = i + 1;
    }
    if outcomes.len() < shas.len() {
        CherryPickStep::Run(cherry_pick(shas[outcomes.len()].as_str()))
    } else {
        CherryPickStep::Done(Ok(shas.len()))
    }
}

proof fn lemma_first_failure_stable(outcomes: Seq<Result<String, String>>, k: int, m: int)
    requires
        0 <= k <= m,
        first_failure_below(outcomes, k) is Some,
    ensures
        first_failure_below(outcomes, m) == first_failure_below(outcomes, k),
    decreases m - k,
{
    if m > k {
        lemma_first_failure_stable(outcomes, k, m - 1);
    }
}

/// Law: the picks run in the given order, each once: while all succeed, the
/// next step picks the next SHA; when all have succeeded the result is their
/// count; and when one fails the result is its index (how many were applied
/// before it) with its message.
pub proof fn lemma_cherry_pick_outcomes(outcomes: Seq<Result<String, String>>, k: int)
    requires
        0 <= k <= outcomes.len(),
        forall|j: int| 0 <= j < k ==> outcomes[j] is Ok,
    ensures
        k == outcomes.len() ==> first_failure(outcomes) is None,
        k < outcomes.len() && outcomes[k] is Err ==> first_failure(outcomes) == Some(k),
{
    lemma_first_failure_below(outcomes, outcomes.len() as int);
}

} // verus!
