//! Project identity from a working directory.
//!
//! A repository is what makes a project: its key is the path of the main working tree, its label
//! that path's last component. Work outside a repository has no project. The caller asks the
//! filesystem; what its answers mean is decided here, over paths written with `/`.
use vstd::prelude::*;
use crate::registry::{base_name, basename, components, last_component};
use crate::text::{
    cat2, cat3, chars_of, find_last, last_at, opt_view, owned, same, string_of, strip_prefix, trim,
    trimmed, views, without_prefix,
};

verus! {

/// A project: its unique key (the repository's path) and its label (the path's last component).
#[derive(Debug, PartialEq, Eq)]
pub struct ProjectRef {
    pub key: String,
    pub label: String,
}

/// What a project reference says.
#[verifier::ext_equal]
pub struct ProjectModel {
    pub key: Seq<char>,
    pub label: Seq<char>,
}

impl ProjectRef {
    pub open spec fn model(self) -> ProjectModel {
        ProjectModel { key: self.key@, label: self.label@ }
    }
}

// ---------------------------------------------------------------------------------------------
// Paths
// ---------------------------------------------------------------------------------------------

/// A path that starts at the root.
pub open spec fn absolute(path: Seq<char>) -> bool {
    path.len() > 0 && path[0] == '/'
}

fn is_absolute(path: &str) -> (r: bool)
    ensures
        r == absolute(path@),
{
    let v = chars_of(path);
    v.len() > 0 && v[0] == '/'
}

/// An absolute path without what names no further directory at its end: separators, and dots that
/// stand alone.
pub open spec fn tidy(path: Seq<char>) -> Seq<char>
    decreases path.len(),
{
    if path.len() > 1 && path.last() == '/' {
        tidy(path.drop_last())
    } else if path.len() > 1 && path.last() == '.' && path[path.len() - 2] == '/' {
        tidy(path.drop_last())
    } else {
        path
    }
}

/// The directory that holds an absolute path; the root has none.
pub open spec fn parent(path: Seq<char>) -> Option<Seq<char>> {
    let p = tidy(path);
    let cut = last_at(p, '/', '/');
    if p.len() <= 1 {
        None
    } else if cut <= 0 {
        Some(seq!['/'])
    } else {
        Some(tidy(p.take(cut)))
    }
}

fn tidy_end(v: &Vec<char>, end: usize) -> (r: usize)
    requires
        end <= v.len(),
    ensures
        r <= end,
        v@.take(r as int) == tidy(v@.take(end as int)),
{
    let mut n: usize = end;
    while n > 1 && (v[n - 1] == '/' || (v[n - 1] == '.' && v[n - 2] == '/'))
        invariant
            0 <= n <= end <= v.len(),
            tidy(v@.take(n as int)) == tidy(v@.take(end as int)),
        decreases n,
    {
        assert(v@.take(n as int).drop_last() =~= v@.take(n - 1));
        n = n - 1;
    }
    n
}

proof fn lemma_tidy_shorter(path: Seq<char>)
    ensures
        tidy(path).len() <= path.len(),
        path.len() > 0 ==> tidy(path).len() > 0,
    decreases path.len(),
{
    if path.len() > 1 && (path.last() == '/' || (path.last() == '.' && path[path.len() - 2]
        == '/')) {
        lemma_tidy_shorter(path.drop_last());
    }
}

/// The directory that holds a path has a shorter path.
pub proof fn lemma_parent_shorter(path: Seq<char>)
    ensures
        parent(path) matches Some(p) ==> p.len() < path.len(),
{
    lemma_tidy_shorter(path);
    let p = tidy(path);
    let cut = last_at(p, '/', '/');
    if p.len() > 1 && cut > 0 {
        lemma_last_at_below(p, '/', '/');
        lemma_tidy_shorter(p.take(cut));
    }
}

proof fn lemma_last_at_below(s: Seq<char>, a: char, b: char)
    ensures
        -1 <= last_at(s, a, b) < s.len() || (s.len() == 0 && last_at(s, a, b) == -1),
    decreases s.len(),
{
    if s.len() > 0 {
        lemma_last_at_below(s.drop_last(), a, b);
    }
}

/// The directory part of any path: an absolute one's parent; of a relative one what stands in
/// front of its last component, which is nothing for a bare name; the empty path has none.
pub open spec fn any_parent(path: Seq<char>) -> Option<Seq<char>> {
    if absolute(path) {
        parent(path)
    } else if path.len() == 0 {
        None
    } else {
        let cut = last_at(tidy(path), '/', '/');
        if cut <= 0 {
            Some(Seq::empty())
        } else {
            Some(tidy(tidy(path).take(cut)))
        }
    }
}

/// The directory part of any path.
pub fn config_dir(path: &str) -> (r: Option<String>)
    ensures
        opt_view(r) == any_parent(path@),
{
    if is_absolute(path) {
        return parent_of(path);
    }
    let v = chars_of(path);
    if v.len() == 0 {
        return None;
    }
    let end = tidy_end(&v, v.len());
    assert(v@.take(v.len() as int) =~= path@);
    let head = chars_of(&string_of(&v, 0, end));
    assert(head@ =~= tidy(path@));
    let cut = find_last(&head, '/', '/');
    if cut <= 1 {
        let none = String::new();
        assert(none@ =~= Seq::<char>::empty());
        return Some(none);
    }
    let n = tidy_end(&head, cut - 1);
    let out = string_of(&head, 0, n);
    assert(out@ =~= head@.take(n as int));
    Some(out)
}

/// A directory and those that hold it, nearest first; none where the path is not absolute.
pub open spec fn upwards(path: Seq<char>) -> Seq<Seq<char>>
    decreases path.len(),
{
    proof {
        lemma_parent_shorter(path);
    }
    match parent(path) {
        Some(p) => seq![path] + upwards(p),
        None => seq![path],
    }
}

fn parent_of(path: &str) -> (r: Option<String>)
    ensures
        opt_view(r) == parent(path@),
{
    let v = chars_of(path);
    let end = tidy_end(&v, v.len());
    assert(v@.take(v.len() as int) =~= path@);
    if end <= 1 {
        return None;
    }
    let mut head: Vec<char> = Vec::new();
    let mut i: usize = 0;
    while i < end
        invariant
            0 <= i <= end <= v.len(),
            head@ == v@.take(i as int),
        decreases end - i,
    {
        head.push(v[i]);
        assert(v@.take(i as int).push(v@[i as int]) =~= v@.take(i + 1));
        i = i + 1;
    }
    let cut = find_last(&head, '/', '/');
    if cut <= 1 {
        proof {
            reveal_strlit("/");
            assert("/"@ =~= seq!['/']);
        }
        return Some(owned("/"));
    }
    let n = tidy_end(&head, cut - 1);
    let out = string_of(&head, 0, n);
    assert(out@ =~= head@.take(n as int));
    Some(out)
}

/// The directories in which a working tree's `.git` is looked for, nearest first. A path that is
/// not absolute names no tree: it would be resolved against a directory that has nothing to do
/// with the session.
pub fn candidate_roots(start: &str) -> (r: Vec<String>)
    ensures
        views(r@) == if absolute(start@) {
            upwards(start@)
        } else {
            Seq::empty()
        },
{
    let mut out: Vec<String> = Vec::new();
    assert(views(out@) =~= Seq::<Seq<char>>::empty());
    if !is_absolute(start) {
        return out;
    }
    let mut cur = owned(start);
    loop
        invariant_except_break
            views(out@) + upwards(cur@) == upwards(start@),
        ensures
            views(out@) == upwards(start@),
        decreases cur@.len(),
    {
        let next = parent_of(&cur);
        let ghost held = out@;
        let ghost dir = cur@;
        proof {
            lemma_parent_shorter(cur@);
        }
        out.push(cur);
        assert(views(out@) =~= views(held).push(dir));
        match next {
            Some(p) => {
                assert(views(held) + (seq![dir] + upwards(p@)) =~= views(held).push(dir) + upwards(
                    p@,
                ));
                cur = p;
            },
            None => {
                assert(views(held) + seq![dir] =~= views(held).push(dir));
                break;
            },
        }
    }
    out
}

/// The first of the candidates that holds a `.git`.
pub open spec fn first_held(dirs: Seq<Seq<char>>, held: Seq<bool>) -> Option<Seq<char>>
    decreases dirs.len(),
{
    if dirs.len() == 0 || held.len() == 0 {
        None
    } else if held[0] {
        Some(dirs[0])
    } else {
        first_held(dirs.skip(1), held.skip(1))
    }
}

/// The nearest working tree root at or above `start`, where `held` tells of each candidate in turn
/// whether it holds a `.git`.
pub fn git_root(start: &str, held: &Vec<bool>) -> (r: Option<String>)
    ensures
        opt_view(r) == if absolute(start@) {
            first_held(upwards(start@), held@)
        } else {
            None
        },
{
    let dirs = candidate_roots(start);
    let ghost all = views(dirs@);
    let mut i: usize = 0;
    assert(all.skip(0) =~= all);
    assert(held@.skip(0) =~= held@);
    while i < dirs.len() && i < held.len()
        invariant
            0 <= i <= dirs.len(),
            i <= held.len(),
            all == views(dirs@),
            first_held(all, held@) == first_held(all.skip(i as int), held@.skip(i as int)),
            all == if absolute(start@) {
                upwards(start@)
            } else {
                Seq::empty()
            },
        decreases dirs.len() - i,
    {
        assert(all.skip(i as int).skip(1) =~= all.skip(i + 1));
        assert(held@.skip(i as int).skip(1) =~= held@.skip(i + 1));
        if held[i] {
            return Some(owned(&dirs[i]));
        }
        i = i + 1;
    }
    None
}

/// A path below another; an absolute one stands for itself.
pub open spec fn joined_path(base: Seq<char>, rel: Seq<char>) -> Seq<char> {
    if absolute(rel) {
        rel
    } else if base.len() == 0 || base.last() == '/' {
        base + rel
    } else {
        base + "/"@ + rel
    }
}

/// A path that git records in its own directory: absolute, or relative to the directory that holds
/// it.
pub fn recorded_path(base: &str, recorded: &str) -> (r: String)
    ensures
        r@ == joined_path(base@, recorded@),
{
    if is_absolute(recorded) {
        return owned(recorded);
    }
    let v = chars_of(base);
    if v.len() == 0 || v[v.len() - 1] == '/' {
        cat2(base, recorded)
    } else {
        cat3(base, "/", recorded)
    }
}

// ---------------------------------------------------------------------------------------------
// Git metadata
// ---------------------------------------------------------------------------------------------

/// The branch that a `HEAD` file names; none where the head is detached.
pub open spec fn branch_of(head: Seq<char>) -> Option<Seq<char>> {
    without_prefix(trimmed(head), "ref: refs/heads/"@)
}

/// The branch that the text of a `HEAD` file names.
pub fn git_branch(head: &str) -> (r: Option<String>)
    ensures
        opt_view(r) == branch_of(head@),
{
    strip_prefix(&trim(head), "ref: refs/heads/")
}

/// The git directory that a `.git` file redirects to.
pub open spec fn redirect_of(root: Seq<char>, text: Seq<char>) -> Option<Seq<char>> {
    match without_prefix(text, "gitdir:"@) {
        Some(rest) => Some(joined_path(root, trimmed(rest))),
        None => None,
    }
}

/// The git directory of the working tree at `root`, from the text of its `.git` file.
pub fn git_dir(root: &str, redirect: &str) -> (r: Option<String>)
    ensures
        opt_view(r) == redirect_of(root@, redirect@),
{
    match strip_prefix(redirect, "gitdir:") {
        Some(rest) => Some(recorded_path(root, &trim(&rest))),
        None => None,
    }
}

/// The shared git directory that a linked worktree's `commondir` file names.
pub fn common_dir(git_dir: &str, recorded: &str) -> (r: String)
    ensures
        r@ == joined_path(git_dir@, trimmed(recorded@)),
{
    recorded_path(git_dir, &trim(recorded))
}

/// The checkout of a shared git directory: its parent, where it is a `.git` directory.
pub open spec fn checkout_of(common: Seq<char>) -> Option<Seq<char>> {
    let parts = components(common);
    if parts.len() > 0 && parts.last() == ".git"@ {
        parent(common)
    } else {
        None
    }
}

/// The main working tree of a repository, from the resolved path of its shared git directory.
pub fn main_worktree(common: &str) -> (r: Option<String>)
    ensures
        opt_view(r) == checkout_of(common@),
{
    match last_component(common) {
        Some(name) => if same(&name, ".git") {
            parent_of(common)
        } else {
            None
        },
        None => None,
    }
}

/// The project of a working tree. A linked worktree belongs to the repository whose checkout the
/// shared git directory names; any other tree stands for itself.
pub open spec fn project_of(
    tree: Option<Seq<char>>,
    common: Option<Seq<char>>,
) -> Option<ProjectModel> {
    match tree {
        None => None,
        Some(tree) => {
            let root = match common {
                Some(c) => match checkout_of(c) {
                    Some(r) => r,
                    None => tree,
                },
                None => tree,
            };
            Some(ProjectModel { key: root, label: base_name(root) })
        },
    }
}

/// The project of a working tree: `tree` is its root, `common` the resolved path of its shared git
/// directory where it records one. Outside a repository there is none. A root without a last
/// component is labelled by its whole path, never by an empty string.
pub fn resolve_project(tree: Option<String>, common: Option<String>) -> (r: Option<ProjectRef>)
    ensures
        match r {
            Some(p) => project_of(opt_view(tree), opt_view(common)) == Some(p.model()),
            None => project_of(opt_view(tree), opt_view(common)) is None,
        },
{
    match tree {
        None => None,
        Some(tree) => {
            let checkout = match common {
                Some(c) => main_worktree(&c),
                None => None,
            };
            let key = match checkout {
                Some(r) => r,
                None => tree,
            };
            let label = basename(&key);
            Some(ProjectRef { key, label })
        },
    }
}

/// A project's label is never empty, where its tree is an absolute path.
pub proof fn law_a_project_has_a_label(tree: Seq<char>, common: Option<Seq<char>>)
    requires
        tree.len() > 0,
        common matches Some(c) ==> absolute(c),
    ensures
        project_of(Some(tree), common) matches Some(p) && p.label.len() > 0 && p.key.len() > 0,
{
    let p = project_of(Some(tree), common)->0;
    if let Some(c) = common {
        if let Some(r) = checkout_of(c) {
            let t = tidy(c);
            let cut = last_at(t, '/', '/');
            if cut > 0 {
                lemma_last_at_below(t, '/', '/');
                lemma_tidy_shorter(t.take(cut));
            }
        }
    }
    let parts = components(p.key);
    crate::seqs::lemma_filter_passes(
        crate::text::pieces(p.key, '/'),
        |p: Seq<char>| p.len() > 0 && p != "."@,
    );
    if parts.len() > 0 {
        assert(parts[parts.len() - 1].len() > 0);
    }
}

/// Every linked worktree of a repository is of one project: that of the repository's own checkout.
pub proof fn law_worktrees_share_their_project(tree: Seq<char>, common: Seq<char>)
    requires
        checkout_of(common) is Some,
    ensures
        project_of(Some(tree), Some(common)) == project_of(Some(checkout_of(common)->0), None),
{
}

} // verus!
