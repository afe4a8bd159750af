//! The viewer's decisions apart from drawing: window titles, column widths,
//! which commits a dialog lists, which commit a branch points to, reordering
//! dialog entries, and the command line.
use vstd::prelude::*;

use crate::git::{
    commit_views, entry_views, lemma_commit_views_push, lemma_entry_views_push, Commit,
    CommitView, RebaseAction, RebaseEntry, RebaseEntryView,
};
use crate::text::{
    chars_of, first_index, first_index_in, push_str, starts_with, string_of, trim, trim_str,
};

verus! {

/// Which mode the commit-list dialog is in.
#[derive(Debug, Clone, PartialEq, Eq)]
pub enum DialogMode {
    /// Interactive rebase: all actions available, base SHA + branch stored.
    Rebase { base_sha: String, branch: String },
    /// Cherry-pick: only "Pick" action, entries are commits to apply.
    CherryPick,
}

// ---------------------------------------------------------------------------
// Titles
// ---------------------------------------------------------------------------

/// The window title: the repository, the path filter when there is one, and
/// either `(all branches)` or the branch (the revision shown, else the current
/// branch) in brackets.
pub open spec fn window_title_of(
    repo_name: Seq<char>,
    revision: Option<Seq<char>>,
    current_branch: Seq<char>,
    path_filter: Option<Seq<char>>,
    show_all: bool,
) -> Seq<char> {
    let branch = match revision {
        Some(r) => r,
        None => current_branch,
    };
    match path_filter {
        Some(path) => if show_all {
            "GitShrub - "@ + repo_name + " - "@ + path + " (all branches)"@
        } else {
            "GitShrub - "@ + repo_name + " - "@ + path + " ["@ + branch + "]"@
        },
        None => if show_all {
            "GitShrub - "@ + repo_name + " (all branches)"@
        } else {
            "GitShrub - "@ + repo_name + " ["@ + branch + "]"@
        },
    }
}

/// Build the window title string.
pub fn window_title(
    repo_name: &str,
    revision: Option<&str>,
    current_branch: &str,
    path_filter: Option<&str>,
    show_all: bool,
) -> (t: String)
    ensures
        t@ == window_title_of(
            repo_name@,
            crate::git::opt_view(revision),
            current_branch@,
            crate::git::opt_view(path_filter),
            show_all,
        ),
{
    let branch = match revision {
        Some(r) => r,
        None => current_branch,
    };
    let mut t = "GitShrub - ".to_owned();
    push_str(&mut t, repo_name);
    match path_filter {
        Some(path) => {
            push_str(&mut t, " - ");
            push_str(&mut t, path);
            if show_all {
                push_str(&mut t, " (all branches)");
            } else {
                push_str(&mut t, " [");
                push_str(&mut t, branch);
                push_str(&mut t, "]");
            }
        },
        None => {
            if show_all {
                push_str(&mut t, " (all branches)");
            } else {
                push_str(&mut t, " [");
                push_str(&mut t, branch);
                push_str(&mut t, "]");
            }
        },
    }
    t
}

/// The title the window opens with, before any branch is known.
pub open spec fn startup_title_of(repo_name: Seq<char>, path_filter: Option<Seq<char>>, show_all: bool) -> Seq<char> {
    match path_filter {
        Some(path) => if show_all {
            "GitShrub - "@ + repo_name + " - "@ + path + " (all branches)"@
        } else {
            "GitShrub - "@ + repo_name + " - "@ + path
        },
        None => if show_all {
            "GitShrub - "@ + repo_name + " (all branches)"@
        } else {
            "GitShrub - "@ + repo_name
        },
    }
}

/// The title the window opens with.
pub fn startup_title(repo_name: &str, path_filter: Option<&str>, show_all: bool) -> (t: String)
    ensures
        t@ == startup_title_of(repo_name@, crate::git::opt_view(path_filter), show_all),
{
    let mut t = "GitShrub - ".to_owned();
    push_str(&mut t, repo_name);
    if let Some(path) = path_filter {
        push_str(&mut t, " - ");
        push_str(&mut t, path);
    }
    if show_all {
        push_str(&mut t, " (all branches)");
    }
    t
}

// ---------------------------------------------------------------------------
// Column widths
// ---------------------------------------------------------------------------

/// The longest author name, in bytes (its UTF-8 length, as `str::len` gives it),
/// among the first `k` commits (0 for none).
pub open spec fn longest_author_below(cs: Seq<CommitView>, k: int) -> int
    decreases k,
{
    if k <= 0 {
        0
    } else {
        let m = longest_author_below(cs, k - 1);
        let n = (vstd::utf8::encode_utf8(cs[k - 1].author_name).len() as usize) as int;
        if n > m {
            n
        } else {
            m
        }
    }
}

/// `n` clamped to `lo..=hi`.
pub open spec fn clamp(n: int, lo: int, hi: int) -> int {
    if n < lo {
        lo
    } else if n > hi {
        hi
    } else {
        n
    }
}

/// The longest author name length in bytes, clamped to 8..=40 (8 when there are
/// no commits), for sizing the author column.
pub fn max_author_chars(commits: &[Commit]) -> (m: usize)
    ensures
        m == clamp(longest_author_below(commit_views(commits@), commits@.len() as int), 8, 40),
{
    let ghost cv = commit_views(commits@);
    let mut longest: usize = 0;
    let mut k: usize = 0;
    while k < commits.len()
        invariant
            k <= commits@.len(),
            cv == commit_views(commits@),
            longest == longest_author_below(cv, k as int),
        decreases commits@.len() - k,
    {
        let n = commits[k].author_name.as_str().len();
        assert(cv[k as int].author_name == commits@[k as int].author_name@);
        if n > longest {
            longest = n;
        }
        k = k + 1;
    }
    if longest < 8 {
        8
    } else if longest > 40 {
        40
    } else {
        longest
    }
}

// ---------------------------------------------------------------------------
// Reflog labels
// ---------------------------------------------------------------------------

/// The label of the first of the first `k` entries whose SHA is `sha`.
pub open spec fn label_below(ls: Seq<(Seq<char>, Seq<char>)>, sha: Seq<char>, k: int) -> Option<
    Seq<char>,
>
    decreases k,
{
    if k <= 0 {
        None
    } else {
        match label_below(ls, sha, k - 1) {
            Some(l) => Some(l),
            None => if ls[k - 1].0 == sha {
                Some(ls[k - 1].1)
            } else {
                None
            },
        }
    }
}

/// A commit with the reflog label of its SHA, if any, added to its refs.
pub open spec fn annotated(c: CommitView, ls: Seq<(Seq<char>, Seq<char>)>) -> CommitView {
    match label_below(ls, c.full_sha, ls.len() as int) {
        Some(l) => CommitView { refs: c.refs.push(l), ..c },
        None => c,
    }
}

/// The label of `sha` among the entries.
fn find_label(labels: &[(String, String)], sha: &String) -> (r: Option<String>)
    ensures
        match r {
            Some(l) => label_below(
                crate::git::pair_views(labels@),
                sha@,
                labels@.len() as int,
            ) == Some(l@),
            None => label_below(crate::git::pair_views(labels@), sha@, labels@.len() as int) is None,
        },
{
    let ghost lv = crate::git::pair_views(labels@);
    let mut k: usize = 0;
    while k < labels.len()
        invariant
            k <= labels@.len(),
            lv == crate::git::pair_views(labels@),
            label_below(lv, sha@, k as int) is None,
        decreases labels@.len() - k,
    {
        assert(lv[k as int] == (labels@[k as int].0@, labels@[k as int].1@));
        if labels[k].0 == *sha {
            proof {
                lemma_label_below_stable(lv, sha@, k + 1, lv.len() as int);
            }
            return Some(labels[k].1.clone());
        }
        k = k + 1;
    }
    None
}

proof fn lemma_label_below_stable(ls: Seq<(Seq<char>, Seq<char>)>, sha: Seq<char>, k: int, m: int)
    requires
        0 <= k <= m,
        label_below(ls, sha, k) is Some,
    ensures
        label_below(ls, sha, m) == label_below(ls, sha, k),
    decreases m - k,
{
    if m > k {
        lemma_label_below_stable(ls, sha, k, m - 1);
    }
}

/// Annotate commits with the reflog labels of their SHAs (as
/// `load_reflog_orphans` gives them): each commit whose SHA has a label gets it
/// as one more ref.
pub fn annotate_reflog(commits: &mut Vec<Commit>, labels: &[(String, String)])
    ensures
        final(commits)@.len() == old(commits)@.len(),
        forall|i: int|
            0 <= i < final(commits)@.len() ==> (#[trigger] final(commits)@[i])@ == annotated(
                old(commits)@[i]@,
                crate::git::pair_views(labels@),
            ),
{
    let ghost lv = crate::git::pair_views(labels@);
    let mut k: usize = 0;
    while k < commits.len()
        invariant
            k <= commits@.len(),
            commits@.len() == old(commits)@.len(),
            lv == crate::git::pair_views(labels@),
            forall|i: int| 0 <= i < k ==> (#[trigger] commits@[i])@ == annotated(old(commits)@[i]@, lv),
            forall|i: int| k <= i < commits@.len() ==> #[trigger] commits@[i] == old(commits)@[i],
        decreases commits@.len() - k,
    {
        if let Some(label) = find_label(labels, &commits[k].full_sha) {
            let ghost before = commits@[k as int].refs.deep_view();
            commits[k].refs.push(label);
            assert(commits@[k as int].refs.deep_view() =~= before.push(label@));
        }
        k = k + 1;
    }
}

// ---------------------------------------------------------------------------
// Dialogs
// ---------------------------------------------------------------------------

/// The pick entry of commit `i`, when there is one.
pub open spec fn pick_entry(cs: Seq<CommitView>, i: int) -> Option<RebaseEntryView> {
    if 0 <= i < cs.len() {
        Some(
            RebaseEntryView {
                sha: cs[i].full_sha,
                short_sha: cs[i].short_sha,
                subject: cs[i].subject,
                action: RebaseAction::Pick,
            },
        )
    } else {
        None
    }
}

/// The pick entries of the selected commits, in reverse selection order:
/// oldest first when the selection runs down the newest-first commit list.
pub open spec fn pick_entries(cs: Seq<CommitView>, sel: Seq<usize>) -> Seq<RebaseEntryView>
    decreases sel.len(),
{
    if sel.len() == 0 {
        Seq::empty()
    } else {
        let rest = pick_entries(cs, sel.drop_first());
        match pick_entry(cs, sel[0] as int) {
            Some(e) => rest.push(e),
            None => rest,
        }
    }
}

/// The entries of the cherry-pick dialog for the selected commit indices (in
/// ascending order, as the selection set keeps them): oldest commit first,
/// every entry `pick`, indices out of range skipped; `None` when nothing is
/// selected.
pub fn cherry_pick_dialog_entries(commits: &[Commit], selection: &[usize]) -> (r: Option<
    Vec<RebaseEntry>,
>)
    ensures
        selection@.len() == 0 ==> r is None,
        selection@.len() > 0 ==> r is Some && entry_views(r->Some_0@) == pick_entries(
            commit_views(commits@),
            selection@,
        ),
{
    if selection.len() == 0 {
        return None;
    }
    let ghost cv = commit_views(commits@);
    let ghost sel = selection@;
    let mut entries: Vec<RebaseEntry> = Vec::new();
    let mut t: usize = selection.len();
    assert(sel.subrange(t as int, sel.len() as int) =~= Seq::<usize>::empty());
    assert(entry_views(entries@) =~= Seq::<RebaseEntryView>::empty());
    while t > 0
        invariant
            t <= sel.len(),
            sel == selection@,
            cv == commit_views(commits@),
            entry_views(entries@) == pick_entries(cv, sel.subrange(t as int, sel.len() as int)),
        decreases t,
    {
        let idx = selection[t - 1];
        assert(sel.subrange(t - 1, sel.len() as int).drop_first() =~= sel.subrange(
            t as int,
            sel.len() as int,
        ));
        assert(sel.subrange(t - 1, sel.len() as int)[0] == idx);
        if idx < commits.len() {
            let c = &commits[idx];
            assert(cv[idx as int] == c@);
            let e = RebaseEntry {
                sha: c.full_sha.clone(),
                short_sha: c.short_sha.clone(),
                subject: c.subject.clone(),
                action: RebaseAction::Pick,
            };
            proof {
                lemma_entry_views_push(entries@, e);
            }
            entries.push(e);
        }
        t = t - 1;
    }
    assert(sel.subrange(0, sel.len() as int) =~= sel);
    Some(entries)
}

/// The SHAs of the entries marked `pick`, in order.
pub open spec fn picked(es: Seq<RebaseEntryView>) -> Seq<Seq<char>>
    decreases es.len(),
{
    if es.len() == 0 {
        Seq::empty()
    } else {
        let r = picked(es.drop_last());
        if es.last().action == RebaseAction::Pick {
            r.push(es.last().sha)
        } else {
            r
        }
    }
}

/// The SHAs the cherry-pick dialog applies: those of the entries left as
/// `pick`, in dialog order.
pub fn picked_shas(entries: &[RebaseEntry]) -> (r: Vec<String>)
    ensures
        r.deep_view() == picked(entry_views(entries@)),
{
    let ghost es = entry_views(entries@);
    let mut r: Vec<String> = Vec::new();
    let mut k: usize = 0;
    assert(es.take(0) =~= Seq::<RebaseEntryView>::empty());
    assert(r.deep_view() =~= Seq::<Seq<char>>::empty());
    while k < entries.len()
        invariant
            k <= entries@.len(),
            es == entry_views(entries@),
            r.deep_view() == picked(es.take(k as int)),
        decreases entries@.len() - k,
    {
        assert(es.take(k + 1).drop_last() =~= es.take(k as int));
        assert(es[k as int] == entries@[k as int]@);
        if entries[k].action == RebaseAction::Pick {
            let ghost prev = r.deep_view();
            r.push(entries[k].sha.clone());
            assert(r.deep_view() =~= prev.push(es[k as int].sha));
        }
        k = k + 1;
    }
    assert(es.take(entries@.len() as int) =~= es);
    r
}

/// Move the dialog entry at `src` to position `dst` (drag and drop).
pub fn move_entry(entries: &mut Vec<RebaseEntry>, src: usize, dst: usize)
    requires
        src < old(entries)@.len(),
        dst < old(entries)@.len(),
    ensures
        final(entries)@ == old(entries)@.remove(src as int).insert(
            dst as int,
            old(entries)@[src as int],
        ),
{
    let entry = entries.remove(src);
    entries.insert(dst, entry);
}

/// Law: moving an entry keeps the same entries, each as often, and the same
/// count.
pub proof fn lemma_move_entry_permutes(es: Seq<RebaseEntry>, src: int, dst: int)
    requires
        0 <= src < es.len(),
        0 <= dst < es.len(),
    ensures
        es.remove(src).insert(dst, es[src]).len() == es.len(),
        es.remove(src).insert(dst, es[src]).to_multiset() == es.to_multiset(),
{
    broadcast use vstd::seq_lib::group_to_multiset_ensures;

    let r = es.remove(src);
    es.remove_ensures(src);
    r.insert_ensures(dst, es[src]);
    assert(es.remove(src) =~= es.subrange(0, src) + es.subrange(src + 1, es.len() as int));
    assert(es =~= es.subrange(0, src) + seq![es[src]] + es.subrange(src + 1, es.len() as int));
    assert(r.insert(dst, es[src]) =~= r.subrange(0, dst) + seq![es[src]] + r.subrange(
        dst,
        r.len() as int,
    ));
    assert(r =~= r.subrange(0, dst) + r.subrange(dst, r.len() as int));
    vstd::seq_lib::lemma_multiset_commutative(r.subrange(0, dst), seq![es[src]]);
    vstd::seq_lib::lemma_multiset_commutative(r.subrange(0, dst) + seq![es[src]], r.subrange(dst, r.len() as int));
    vstd::seq_lib::lemma_multiset_commutative(r.subrange(0, dst), r.subrange(dst, r.len() as int));
    vstd::seq_lib::lemma_multiset_commutative(es.subrange(0, src), seq![es[src]]);
    vstd::seq_lib::lemma_multiset_commutative(es.subrange(0, src) + seq![es[src]], es.subrange(src + 1, es.len() as int));
    vstd::seq_lib::lemma_multiset_commutative(es.subrange(0, src), es.subrange(src + 1, es.len() as int));
}

// ---------------------------------------------------------------------------
// Selecting the branch's commit
// ---------------------------------------------------------------------------

/// The first of the first `k` commits whose refs include `branch`.
pub open spec fn branch_commit_below(cs: Seq<CommitView>, branch: Seq<char>, k: int) -> Option<int>
    decreases k,
{
    if k <= 0 {
        None
    } else {
        match branch_commit_below(cs, branch, k - 1) {
            Some(i) => Some(i),
            None => if cs[k - 1].refs.contains(branch) {
                Some(k - 1)
            } else {
                None
            },
        }
    }
}

/// Find the commit that the current branch points to: the first commit one
/// of whose refs is `branch`.
pub fn branch_commit_index(commits: &[Commit], branch: &String) -> (r: Option<usize>)
    ensures
        match r {
            Some(i) => branch_commit_below(
                commit_views(commits@),
                branch@,
                commits@.len() as int,
            ) == Some(i as int),
            None => branch_commit_below(commit_views(commits@), branch@, commits@.len() as int) is None,
        },
{
    let ghost cv = commit_views(commits@);
    let mut k: usize = 0;
    while k < commits.len()
        invariant
            k <= commits@.len(),
            cv == commit_views(commits@),
            branch_commit_below(cv, branch@, k as int) is None,
        decreases commits@.len() - k,
    {
        assert(cv[k as int] == commits@[k as int]@);
        if crate::git::contains_string(&commits[k].refs, branch) {
            proof {
                let rv = commits@[k as int].refs.deep_view();
                let i = choose|i: int|
                    0 <= i < commits@[k as int].refs@.len() && (
                    #[trigger] commits@[k as int].refs@[i])@ == branch@;
                assert(rv[i] == branch@);
                assert(cv[k as int].refs.contains(branch@));
                lemma_branch_commit_below_stable(cv, branch@, k + 1, cv.len() as int);
            }
            return Some(k);
        }
        proof {
            let rv = commits@[k as int].refs.deep_view();
            if rv.contains(branch@) {
                let i = choose|i: int| 0 <= i < rv.len() && rv[i] == branch@;
                assert(commits@[k as int].refs@[i]@ == branch@);
            }
        }
        k = k + 1;
    }
    None
}

proof fn lemma_branch_commit_below_stable(cs: Seq<CommitView>, branch: Seq<char>, k: int, m: int)
    requires
        0 <= k <= m,
        branch_commit_below(cs, branch, k) is Some,
    ensures
        branch_commit_below(cs, branch, m) == branch_commit_below(cs, branch, k),
    decreases m - k,
{
    if m > k {
        lemma_branch_commit_below_stable(cs, branch, k, m - 1);
    }
}

// ---------------------------------------------------------------------------
// Remotes
// ---------------------------------------------------------------------------

/// The index of the first of the first `k` names that equals `name`.
pub open spec fn name_index_below(names: Seq<Seq<char>>, name: Seq<char>, k: int) -> Option<int>
    decreases k,
{
    if k <= 0 {
        None
    } else {
        match name_index_below(names, name, k - 1) {
            Some(i) => Some(i),
            None => if names[k - 1] == name {
                Some(k - 1)
            } else {
                None
            },
        }
    }
}

proof fn lemma_name_index_below_stable(names: Seq<Seq<char>>, name: Seq<char>, k: int, m: int)
    requires
        0 <= k <= m,
        name_index_below(names, name, k) is Some,
    ensures
        name_index_below(names, name, m) == name_index_below(names, name, k),
    decreases m - k,
{
    if m > k {
        lemma_name_index_below_stable(names, name, k, m - 1);
    }
}

/// The index of the first string equal to `name`.
fn name_index(names: &[String], name: &str) -> (r: Option<usize>)
    ensures
        match r {
            Some(i) => name_index_below(names.deep_view(), name@, names@.len() as int) == Some(
                i as int,
            ),
            None => name_index_below(names.deep_view(), name@, names@.len() as int) is None,
        },
{
    let ghost nv = names.deep_view();
    let mut k: usize = 0;
    while k < names.len()
        invariant
            k <= names@.len(),
            nv == names.deep_view(),
            name_index_below(nv, name@, k as int) is None,
        decreases names@.len() - k,
    {
        assert(nv[k as int] == names@[k as int]@);
        if str_eq(names[k].as_str(), name) {
            proof {
                lemma_name_index_below_stable(nv, name@, k + 1, names@.len() as int);
            }
            return Some(k);
        }
        k = k + 1;
    }
    None
}

/// The remote part of an upstream such as `origin/main`: the text before its
/// first `/`, or all of it.
pub open spec fn upstream_remote(upstream: Seq<char>) -> Seq<char> {
    match first_index(upstream, '/') {
        Some(p) => upstream.subrange(0, p),
        None => upstream,
    }
}

/// The remote a push dialog starts on: the remote of the current branch's
/// upstream when there is one (else `origin`), or the first remote when that
/// name is not among them.
pub open spec fn default_remote_of(remotes: Seq<Seq<char>>, tracking: Option<Seq<char>>) -> int {
    let wanted = match tracking {
        Some(up) => upstream_remote(up),
        None => "origin"@,
    };
    match name_index_below(remotes, wanted, remotes.len() as int) {
        Some(i) => i,
        None => 0,
    }
}

/// Pick the default remote of the push dialog from the remotes and the current
/// branch's upstream (`origin/main`, say), if it has one.
pub fn default_remote_index(remotes: &[String], tracking: Option<&str>) -> (r: usize)
    ensures
        r == default_remote_of(remotes.deep_view(), crate::git::opt_view(tracking)),
{
    let found = match tracking {
        Some(up) => {
            let cs = chars_of(up);
            assert(cs@.subrange(0, cs@.len() as int) =~= up@);
            let remote = match first_index_in(cs.as_slice(), 0, cs.len(), '/') {
                Some(p) => {
                    proof {
                        crate::text::lemma_first_index_in_range(up@, '/');
                    }
                    string_of(cs.as_slice(), 0, p)
                },
                None => string_of(cs.as_slice(), 0, cs.len()),
            };
            assert(remote@ == upstream_remote(up@));
            name_index(remotes, remote.as_str())
        },
        None => name_index(remotes, "origin"),
    };
    match found {
        Some(i) => i,
        None => 0,
    }
}

proof fn lemma_name_index_below_first(names: Seq<Seq<char>>, name: Seq<char>, k: int)
    requires
        0 <= k <= names.len(),
    ensures
        match name_index_below(names, name, k) {
            Some(i) => 0 <= i < k && names[i] == name && forall|j: int| 0 <= j < i ==> names[j] != name,
            None => forall|j: int| 0 <= j < k ==> names[j] != name,
        },
    decreases k,
{
    if k > 0 {
        lemma_name_index_below_first(names, name, k - 1);
    }
}

/// The remote part of `name/rest` is `name`, when `name` has no `/`.
proof fn lemma_upstream_remote(name: Seq<char>, rest: Seq<char>)
    requires
        !name.contains('/'),
    ensures
        upstream_remote(name + seq!['/'] + rest) == name,
        upstream_remote(name) == name,
{
    let up = name + seq!['/'] + rest;
    assert forall|i: int| 0 <= i < name.len() implies up[i] != '/' by {
        assert(up[i] == name[i]);
    }
    assert(up[name.len() as int] == '/');
    crate::text::lemma_first_index_at(up, '/', name.len() as int);
    assert(up.subrange(0, name.len() as int) =~= name);
    assert forall|i: int| 0 <= i < name.len() implies name[i] != '/' by {}
    crate::text::lemma_first_index_below_none(name, '/', name.len() as int);
}

/// Law: the push dialog starts on the remote that the upstream names (its text
/// before the first `/`, such as `origin` for `origin/feature/login`, or all
/// of it): the first remote of that name; on the first remote when none has
/// it. Without an upstream it starts on the first `origin`, else the first
/// remote.
pub proof fn lemma_default_remote_is_tracked(
    remotes: Seq<Seq<char>>,
    name: Seq<char>,
    rest: Seq<char>,
    i: int,
)
    requires
        !name.contains('/'),
    ensures
        0 <= i < remotes.len() && remotes[i] == name && (forall|j: int|
            0 <= j < i ==> remotes[j] != name) ==> default_remote_of(
            remotes,
            Some(name + seq!['/'] + rest),
        ) == i && default_remote_of(remotes, Some(name)) == i,
        (forall|j: int| 0 <= j < remotes.len() ==> remotes[j] != name) ==> default_remote_of(
            remotes,
            Some(name + seq!['/'] + rest),
        ) == 0 && default_remote_of(remotes, Some(name)) == 0,
        0 <= i < remotes.len() && remotes[i] == "origin"@ && (forall|j: int|
            0 <= j < i ==> remotes[j] != "origin"@) ==> default_remote_of(remotes, None) == i,
        (forall|j: int| 0 <= j < remotes.len() ==> remotes[j] != "origin"@) ==> default_remote_of(
            remotes,
            None,
        ) == 0,
{
    lemma_upstream_remote(name, rest);
    lemma_name_index_below_first(remotes, name, remotes.len() as int);
    lemma_name_index_below_first(remotes, "origin"@, remotes.len() as int);
}

/// Whether a push sets the upstream: only when the local branch tracks nothing
/// yet and is pushed under its own name.
pub fn push_sets_upstream(has_tracking: bool, local_branch: &str, remote_branch: &str) -> (b: bool)
    ensures
        b == (!has_tracking && local_branch@ == remote_branch@),
{
    !has_tracking && str_eq(local_branch, remote_branch)
}

/// Whether the add-remote dialog can add: both the URL and the name hold more
/// than white space.
pub fn add_remote_enabled(url: &str, name: &str) -> (b: bool)
    ensures
        b == (trim(url@).len() > 0 && trim(name@).len() > 0),
{
    let u = trim_str(url);
    let n = trim_str(name);
    !u.as_str().is_empty() && !n.as_str().is_empty()
}

// ---------------------------------------------------------------------------
// The command line
// ---------------------------------------------------------------------------

/// What the command line asks for.
#[derive(Debug, Clone, PartialEq, Eq)]
pub enum CliArgs {
    /// Open the viewer.
    Run { show_all: bool, path_filter: Option<String> },
    /// Print the usage and exit successfully.
    Help,
    /// An option the viewer does not know; exit with an error.
    UnknownOption(String),
}

/// [`CliArgs`] with strings as character sequences.
pub enum CliView {
    Run { show_all: bool, path_filter: Option<Seq<char>> },
    Help,
    UnknownOption(Seq<char>),
}

/// What the first `k` arguments ask for: `--all` shows all branches, `--help`
/// or `-h` asks for the usage, another argument starting with `-` is unknown
/// (the first of these two decides), and any other argument is the path to
/// filter by (the last one counts).
pub open spec fn cli_below(args: Seq<Seq<char>>, k: int) -> CliView
    decreases k,
{
    if k <= 0 {
        CliView::Run { show_all: false, path_filter: None }
    } else {
        match cli_below(args, k - 1) {
            CliView::Run { show_all, path_filter } => {
                let a = args[k - 1];
                if a == "--all"@ {
                    CliView::Run { show_all: true, path_filter }
                } else if a == "--help"@ || a == "-h"@ {
                    CliView::Help
                } else if starts_with(a, "-"@) {
                    CliView::UnknownOption(a)
                } else {
                    CliView::Run { show_all, path_filter: Some(a) }
                }
            },
            other => other,
        }
    }
}

pub open spec fn cli_view(c: CliArgs) -> CliView {
    match c {
        CliArgs::Run { show_all, path_filter } => CliView::Run {
            show_all,
            path_filter: match path_filter {
                Some(p) => Some(p@),
                None => None,
            },
        },
        CliArgs::Help => CliView::Help,
        CliArgs::UnknownOption(o) => CliView::UnknownOption(o@),
    }
}

/// Whether `s` equals `t`.
pub(crate) fn str_eq(s: &str, t: &str) -> (b: bool)
    ensures
        b == (s@ == t@),
{
    let a = crate::text::chars_of(s);
    let c = crate::text::chars_of(t);
    if a.len() != c.len() {
        return false;
    }
    let mut k: usize = 0;
    while k < a.len()
        invariant
            k <= a@.len() == c@.len(),
            a@ == s@,
            c@ == t@,
            forall|i: int| 0 <= i < k ==> a@[i] == c@[i],
        decreases a@.len() - k,
    {
        if a[k] != c[k] {
            return false;
        }
        k = k + 1;
    }
    assert(a@ =~= c@);
    true
}

/// Parse CLI arguments (without the program name).
pub fn parse_args(args: &[String]) -> (r: CliArgs)
    ensures
        cli_view(r) == cli_below(args.deep_view(), args@.len() as int),
{
    let ghost av = args.deep_view();
    let mut show_all = false;
    let mut path_filter: Option<String> = None;
    let mut k: usize = 0;
    while k < args.len()
        invariant
            k <= args@.len(),
            av == args.deep_view(),
            cli_below(av, k as int) == (CliView::Run {
                show_all,
                path_filter: match path_filter {
                    Some(p) => Some(p@),
                    None => None,
                },
            }),
        decreases args@.len() - k,
    {
        let a = args[k].as_str();
        assert(av[k as int] == a@);
        if str_eq(a, "--all") {
            show_all = true;
        } else if str_eq(a, "--help") || str_eq(a, "-h") {
            proof {
                lemma_cli_settled(av, k + 1, av.len() as int);
            }
            return CliArgs::Help;
        } else {
            let cs = crate::text::chars_of(a);
            let dash = crate::text::chars_of("-");
            assert(cs@.subrange(0, cs@.len() as int) =~= a@);
            if crate::text::starts_with_in(cs.as_slice(), 0, cs.len(), dash.as_slice()) {
                proof {
                    lemma_cli_settled(av, k + 1, av.len() as int);
                }
                return CliArgs::UnknownOption(a.to_owned());
            }
            path_filter = Some(a.to_owned());
        }
        k = k + 1;
    }
    CliArgs::Run { show_all, path_filter }
}

/// Once help or an unknown option has been seen, later arguments change nothing.
proof fn lemma_cli_settled(args: Seq<Seq<char>>, k: int, m: int)
    requires
        0 <= k <= m,
        !(cli_below(args, k) is Run),
    ensures
        cli_below(args, m) == cli_below(args, k),
    decreases m - k,
{
    if m > k {
        lemma_cli_settled(args, k, m - 1);
    }
}

} // verus!
