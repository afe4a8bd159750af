//! The list of recently opened repositories, most recent first.
//!
//! Reading and writing the list on disk is the caller's part; the functions
//! here change the list.
use vstd::prelude::*;

use crate::git::contains_string;

verus! {

/// A recent project entry.
#[derive(Debug, Clone)]
pub struct RecentProject {
    /// Absolute path to the git repository root.
    pub path: String,
    /// Display name (usually the directory name).
    pub name: String,
}

/// The persisted project list.
#[derive(Debug, Clone)]
pub struct ProjectList {
    pub recent: Vec<RecentProject>,
}

impl Default for ProjectList {
    fn default() -> (l: Self)
        ensures
            l.recent@.len() == 0,
    {
        ProjectList { recent: Vec::new() }
    }
}

/// The most entries the list keeps.
pub const MAX_RECENT: usize = 50;

/// An entry as path and name.
pub type ProjectView = (Seq<char>, Seq<char>);

pub open spec fn project_views(ps: Seq<RecentProject>) -> Seq<ProjectView> {
    ps.map_values(|p: RecentProject| (p.path@, p.name@))
}

proof fn lemma_project_views_push(ps: Seq<RecentProject>, p: RecentProject)
    ensures
        project_views(ps.push(p)) == project_views(ps).push((p.path@, p.name@)),
{
    assert(project_views(ps.push(p)) =~= project_views(ps).push((p.path@, p.name@)));
}

/// The entries, in order, without those whose path is `path`.
pub open spec fn without_path(ps: Seq<ProjectView>, path: Seq<char>) -> Seq<ProjectView>
    decreases ps.len(),
{
    if ps.len() == 0 {
        Seq::empty()
    } else {
        let r = without_path(ps.drop_last(), path);
        if ps.last().0 == path {
            r
        } else {
            r.push(ps.last())
        }
    }
}

/// The list after opening `path`: its entry first, the others after it in
/// their order, capped at [`MAX_RECENT`] entries.
pub open spec fn with_project(ps: Seq<ProjectView>, path: Seq<char>, name: Seq<char>) -> Seq<
    ProjectView,
> {
    let l = seq![(path, name)] + without_path(ps, path);
    if l.len() > MAX_RECENT {
        l.take(MAX_RECENT as int)
    } else {
        l
    }
}

/// The entries, in order, whose path is not among `missing`.
pub open spec fn present(ps: Seq<ProjectView>, missing: Seq<Seq<char>>) -> Seq<ProjectView>
    decreases ps.len(),
{
    if ps.len() == 0 {
        Seq::empty()
    } else {
        let r = present(ps.drop_last(), missing);
        if missing.contains(ps.last().0) {
            r
        } else {
            r.push(ps.last())
        }
    }
}

/// What `std::path::Path::file_name` gives for a path: its last component,
/// when it has one (none for a path that ends in `..` or is a root).
pub uninterp spec fn path_file_name_of(path: Seq<char>) -> Option<Seq<char>>;

/// The display name of a project: the path's last component, or the whole path
/// when it has none.
pub open spec fn project_name(path: Seq<char>) -> Seq<char> {
    match path_file_name_of(path) {
        Some(n) => n,
        None => path,
    }
}

/// Calls `std::path::Path::file_name` on `path` and converts the component to a
/// `String` (lossless, as it comes from a `str`). The contract only names the
/// result: it is [`path_file_name_of`] of the path, a function of the path
/// alone; what that component is on given paths is left unsaid.
#[verifier::external_body]
fn path_file_name(path: &str) -> (r: Option<String>)
    ensures
        match r {
            Some(n) => path_file_name_of(path@) == Some(n@),
            None => path_file_name_of(path@) is None,
        },
{
    std::path::Path::new(path).file_name().map(|n| n.to_string_lossy().to_string())
}

/// A copy of an entry.
fn copy_project(p: &RecentProject) -> (c: RecentProject)
    ensures
        c.path@ == p.path@ && c.name@ == p.name@,
{
    RecentProject { path: p.path.clone(), name: p.name.clone() }
}

/// The entries whose path is not `path`, in order.
fn entries_without(ps: &Vec<RecentProject>, path: &String) -> (r: Vec<RecentProject>)
    ensures
        project_views(r@) == without_path(project_views(ps@), path@),
{
    let ghost pv = project_views(ps@);
    let mut r: Vec<RecentProject> = Vec::new();
    let mut k: usize = 0;
    assert(pv.take(0) =~= Seq::<ProjectView>::empty());
    assert(project_views(r@) =~= Seq::<ProjectView>::empty());
    while k < ps.len()
        invariant
            k <= ps@.len(),
            pv == project_views(ps@),
            project_views(r@) == without_path(pv.take(k as int), path@),
        decreases ps@.len() - k,
    {
        assert(pv.take(k + 1).drop_last() =~= pv.take(k as int));
        assert(pv[k as int] == (ps@[k as int].path@, ps@[k as int].name@));
        if !(ps[k].path == *path) {
            let p = copy_project(&ps[k]);
            proof {
                lemma_project_views_push(r@, p);
            }
            r.push(p);
        }
        k = k + 1;
    }
    assert(pv.take(ps@.len() as int) =~= pv);
    r
}

/// Add a repo path named `name` to the project list (moves it to the front if
/// already present), keeping at most [`MAX_RECENT`] entries.
pub fn add_project_named(list: &mut ProjectList, repo_path: &str, name: String)
    ensures
        project_views(final(list).recent@) == with_project(
            project_views(old(list).recent@),
            repo_path@,
            name@,
        ),
{
    let path = repo_path.to_owned();
    let rest = entries_without(&list.recent, &path);
    let ghost nm = name@;
    let ghost l = seq![(repo_path@, name@)] + project_views(rest@);
    let mut recent: Vec<RecentProject> = Vec::new();
    let first = RecentProject { path, name };
    proof {
        lemma_project_views_push(recent@, first);
    }
    recent.push(first);
    let mut k: usize = 0;
    assert(project_views(recent@) =~= l.take(1));
    while k < rest.len() && recent.len() < MAX_RECENT
        invariant
            k <= rest@.len(),
            recent@.len() == k + 1,
            recent@.len() <= MAX_RECENT,
            l == seq![(repo_path@, name@)] + project_views(rest@),
            project_views(recent@) == l.take(k + 1),
        decreases rest@.len() - k,
    {
        let p = copy_project(&rest[k]);
        proof {
            lemma_project_views_push(recent@, p);
        }
        recent.push(p);
        k = k + 1;
        assert(project_views(recent@) =~= l.take(k + 1));
    }
    assert(project_views(recent@) =~= with_project(
        project_views(old(list).recent@),
        repo_path@,
        nm,
    ));
    list.recent = recent;
}

/// Add a repo path to the project list (moves it to the front if already
/// present). Its name is the path's last component, or the whole path when it
/// has none.
pub fn add_project(list: &mut ProjectList, repo_path: &str)
    ensures
        project_views(final(list).recent@) == with_project(
            project_views(old(list).recent@),
            repo_path@,
            project_name(repo_path@),
        ),
{
    let name = match path_file_name(repo_path) {
        Some(n) => n,
        None => repo_path.to_owned(),
    };
    add_project_named(list, repo_path, name);
}

/// Remove entries whose paths no longer exist on disk (those listed in `missing`).
pub fn prune_missing(list: &mut ProjectList, missing: &Vec<String>)
    ensures
        project_views(final(list).recent@) == present(
            project_views(old(list).recent@),
            missing.deep_view(),
        ),
{
    let ghost pv = project_views(list.recent@);
    let ghost mv = missing.deep_view();
    let mut r: Vec<RecentProject> = Vec::new();
    let mut k: usize = 0;
    assert(pv.take(0) =~= Seq::<ProjectView>::empty());
    assert(project_views(r@) =~= Seq::<ProjectView>::empty());
    while k < list.recent.len()
        invariant
            k <= list.recent@.len(),
            pv == project_views(list.recent@),
            mv == missing.deep_view(),
            project_views(r@) == present(pv.take(k as int), mv),
        decreases list.recent@.len() - k,
    {
        assert(pv.take(k + 1).drop_last() =~= pv.take(k as int));
        assert(pv[k as int] == (list.recent@[k as int].path@, list.recent@[k as int].name@));
        let gone = contains_string(missing, &list.recent[k].path);
        assert(gone == mv.contains(pv[k as int].0)) by {
            if gone {
                let i = choose|i: int|
                    0 <= i < missing@.len() && (#[trigger] missing@[i])@ == list.recent@[k as int].path@;
                assert(mv[i] == pv[k as int].0);
            }
            if mv.contains(pv[k as int].0) {
                let i = choose|i: int| 0 <= i < mv.len() && mv[i] == pv[k as int].0;
                assert(missing@[i]@ == mv[i]);
            }
        }
        if !gone {
            let p = copy_project(&list.recent[k]);
            proof {
                lemma_project_views_push(r@, p);
            }
            r.push(p);
        }
        k = k + 1;
    }
    assert(pv.take(list.recent@.len() as int) =~= pv);
    list.recent = r;
}

/// No two entries have the same path.
pub open spec fn unique_paths(ps: Seq<ProjectView>) -> bool {
    forall|i: int, j: int| 0 <= i < j < ps.len() ==> (#[trigger] ps[i]).0 != (#[trigger] ps[j]).0
}

proof fn lemma_without_path(ps: Seq<ProjectView>, path: Seq<char>)
    ensures
        without_path(ps, path).len() <= ps.len(),
        forall|i: int|
            0 <= i < without_path(ps, path).len() ==> (#[trigger] without_path(ps, path)[i]).0
                != path && ps.contains(without_path(ps, path)[i]),
        unique_paths(ps) ==> unique_paths(without_path(ps, path)),
    decreases ps.len(),
{
    if ps.len() > 0 {
        lemma_without_path(ps.drop_last(), path);
        let r = without_path(ps.drop_last(), path);
        let w = without_path(ps, path);
        assert forall|i: int| 0 <= i < w.len() implies (#[trigger] w[i]).0 != path && ps.contains(w[i]) by {
            if i < r.len() {
                assert(w[i] == r[i]);
                let k = choose|k: int| 0 <= k < ps.drop_last().len() && ps.drop_last()[k] == r[i];
                assert(ps[k] == r[i]);
            } else {
                assert(ps[ps.len() - 1] == w[i]);
            }
        }
        if unique_paths(ps) {
            assert(unique_paths(ps.drop_last()));
            assert forall|i: int, j: int| 0 <= i < j < w.len() implies (#[trigger] w[i]).0 != (
            #[trigger] w[j]).0 by {
                if j < r.len() {
                    assert(w[i] == r[i] && w[j] == r[j]);
                } else {
                    assert(w[i] == r[i]);
                    let k = choose|k: int| 0 <= k < ps.drop_last().len() && ps.drop_last()[k] == r[i];
                    assert(ps[k] == r[i]);
                    assert(w[j] == ps.last());
                }
            }
        }
    }
}

/// Law: opening a repository puts it first, keeps no other entry for the same
/// path and at most [`MAX_RECENT`] entries, and keeps the paths distinct when
/// they were.
pub proof fn lemma_add_project(ps: Seq<ProjectView>, path: Seq<char>, name: Seq<char>)
    ensures
        with_project(ps, path, name)[0] == (path, name),
        1 <= with_project(ps, path, name).len() <= MAX_RECENT,
        forall|i: int|
            1 <= i < with_project(ps, path, name).len() ==> (#[trigger] with_project(
                ps,
                path,
                name,
            )[i]).0 != path,
        unique_paths(ps) ==> unique_paths(with_project(ps, path, name)),
{
    lemma_without_path(ps, path);
    let w = without_path(ps, path);
    let l = seq![(path, name)] + w;
    let r = with_project(ps, path, name);
    assert forall|i: int| 1 <= i < r.len() implies (#[trigger] r[i]).0 != path by {
        assert(r[i] == w[i - 1]);
    }
    if unique_paths(ps) {
        assert forall|i: int, j: int| 0 <= i < j < r.len() implies (#[trigger] r[i]).0 != (
        #[trigger] r[j]).0 by {
            assert(r[j] == w[j - 1]);
            if i > 0 {
                assert(r[i] == w[i - 1]);
            }
        }
    }
}

/// Every entry whose path is not `path` stays, and those kept keep their order.
proof fn lemma_without_path_keeps(ps: Seq<ProjectView>, path: Seq<char>)
    ensures
        forall|j: int|
            0 <= j < ps.len() && ps[j].0 != path ==> exists|m: int|
                0 <= m < without_path(ps, path).len() && without_path(ps, path)[m] == #[trigger] ps[j]
                    && without_path(ps.take(j), path).len() == m,
    decreases ps.len(),
{
    if ps.len() > 0 {
        let d = ps.drop_last();
        lemma_without_path_keeps(d, path);
        let r = without_path(d, path);
        let w = without_path(ps, path);
        assert forall|j: int| 0 <= j < ps.len() && ps[j].0 != path implies exists|m: int|
            0 <= m < w.len() && w[m] == #[trigger] ps[j] && without_path(ps.take(j), path).len()
                == m by {
            if j < ps.len() - 1 {
                assert(d[j] == ps[j]);
                assert(d.take(j) =~= ps.take(j));
                let m = choose|m: int|
                    0 <= m < r.len() && r[m] == #[trigger] d[j] && without_path(d.take(j), path).len()
                        == m;
                assert(w[m] == r[m]);
            } else {
                assert(ps.take(j) =~= d);
                assert(w[r.len() as int] == ps.last());
                assert(ps[j] == ps.last());
            }
        }
    }
}

/// Law: when the list is under the cap, opening `path` keeps every other
/// entry whose path differs from it, in their order, after the new first
/// entry; no other entry is lost.
pub proof fn lemma_add_project_keeps_others(ps: Seq<ProjectView>, path: Seq<char>, name: Seq<char>)
    requires
        ps.len() < MAX_RECENT,
    ensures
        forall|j: int|
            0 <= j < ps.len() && ps[j].0 != path ==> with_project(ps, path, name).contains(
                #[trigger] ps[j],
            ),
        forall|j: int, k: int|
            0 <= j < k < ps.len() && ps[j].0 != path && ps[k].0 != path ==> exists|a: int, b: int|
                1 <= a < b < with_project(ps, path, name).len() && with_project(ps, path, name)[a]
                    == #[trigger] ps[j] && with_project(ps, path, name)[b] == #[trigger] ps[k],
{
    lemma_without_path(ps, path);
    lemma_without_path_keeps(ps, path);
    let w = without_path(ps, path);
    let r = with_project(ps, path, name);
    assert(r == seq![(path, name)] + w);
    assert forall|j: int| 0 <= j < ps.len() && ps[j].0 != path implies r.contains(#[trigger] ps[j]) by {
        let m = choose|m: int| 0 <= m < w.len() && w[m] == #[trigger] ps[j] && without_path(ps.take(j), path).len() == m;
        assert(r[m + 1] == w[m]);
    }
    assert forall|j: int, k: int|
        0 <= j < k < ps.len() && ps[j].0 != path && ps[k].0 != path implies exists|a: int, b: int|
        1 <= a < b < r.len() && r[a] == #[trigger] ps[j] && r[b] == #[trigger] ps[k] by {
        let mj = choose|m: int| 0 <= m < w.len() && w[m] == #[trigger] ps[j] && without_path(ps.take(j), path).len() == m;
        let mk = choose|m: int| 0 <= m < w.len() && w[m] == #[trigger] ps[k] && without_path(ps.take(k), path).len() == m;
        lemma_without_path_keeps(ps.take(k), path);
        assert(ps.take(k)[j] == ps[j]);
        assert(ps.take(k).take(j) =~= ps.take(j));
        let m2 = choose|m: int|
            0 <= m < without_path(ps.take(k), path).len() && without_path(ps.take(k), path)[m]
                == #[trigger] ps.take(k)[j] && without_path(ps.take(k).take(j), path).len() == m;
        assert(mj < mk);
        assert(r[mj + 1] == w[mj]);
        assert(r[mk + 1] == w[mk]);
    }
}

/// Law: pruning keeps exactly the entries whose paths are not missing, in
/// order, and keeps the paths distinct when they were.
pub proof fn lemma_prune(ps: Seq<ProjectView>, missing: Seq<Seq<char>>)
    ensures
        forall|i: int|
            0 <= i < present(ps, missing).len() ==> !missing.contains(
                (#[trigger] present(ps, missing)[i]).0,
            ) && ps.contains(present(ps, missing)[i]),
        forall|i: int| 0 <= i < ps.len() && !missing.contains(ps[i].0) ==> present(ps, missing).contains(#[trigger] ps[i]),
        unique_paths(ps) ==> unique_paths(present(ps, missing)),
    decreases ps.len(),
{
    if ps.len() > 0 {
        lemma_prune(ps.drop_last(), missing);
        let r = present(ps.drop_last(), missing);
        let w = present(ps, missing);
        assert forall|i: int| 0 <= i < w.len() implies !missing.contains((#[trigger] w[i]).0) && ps.contains(w[i]) by {
            if i < r.len() {
                assert(w[i] == r[i]);
                let k = choose|k: int| 0 <= k < ps.drop_last().len() && ps.drop_last()[k] == r[i];
                assert(ps[k] == r[i]);
            } else {
                assert(ps[ps.len() - 1] == w[i]);
            }
        }
        assert forall|i: int| 0 <= i < ps.len() && !missing.contains(ps[i].0) implies w.contains(#[trigger] ps[i]) by {
            if i < ps.len() - 1 {
                assert(ps.drop_last()[i] == ps[i]);
                let k = choose|k: int| 0 <= k < r.len() && r[k] == ps[i];
                assert(w[k] == r[k]);
            } else {
                assert(w[w.len() - 1] == ps[i]);
            }
        }
        if unique_paths(ps) {
            assert(unique_paths(ps.drop_last()));
            assert forall|i: int, j: int| 0 <= i < j < w.len() implies (#[trigger] w[i]).0 != (
            #[trigger] w[j]).0 by {
                if j < r.len() {
                    assert(w[i] == r[i] && w[j] == r[j]);
                } else {
                    assert(w[i] == r[i]);
                    let k = choose|k: int| 0 <= k < ps.drop_last().len() && ps.drop_last()[k] == r[i];
                    assert(ps[k] == r[i]);
                    assert(w[j] == ps.last());
                }
            }
        }
    }
}

} // verus!
