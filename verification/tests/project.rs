use hatel::project::{
    candidate_roots, common_dir, git_branch, git_dir, git_root, recorded_path, resolve_project,
    ProjectRef,
};

/// A tree of files without links.
struct Tree {
    files: Vec<(String, String)>,
}

impl Tree {
    fn new(files: &[(&str, &str)]) -> Tree {
        Tree { files: files.iter().map(|(p, t)| (p.to_string(), t.to_string())).collect() }
    }

    fn fold(path: &str) -> String {
        let mut parts: Vec<&str> = vec![];
        for part in path.split('/') {
            match part {
                "" | "." => {}
                ".." => {
                    parts.pop();
                }
                p => parts.push(p),
            }
        }
        format!("/{}", parts.join("/"))
    }

    fn is_dir(&self, path: &str) -> bool {
        let below = format!("{}/", Tree::fold(path));
        self.files.iter().any(|(p, _)| p.starts_with(&below))
    }

    fn read(&self, path: &str) -> Option<String> {
        let at = Tree::fold(path);
        self.files.iter().find(|(p, _)| *p == at).map(|(_, t)| t.clone())
    }

    fn root(&self, cwd: &str) -> Option<String> {
        let held: Vec<bool> = candidate_roots(cwd)
            .iter()
            .map(|dir| {
                let dot = format!("{dir}/.git");
                self.is_dir(&dot) || self.read(&dot).is_some()
            })
            .collect();
        git_root(cwd, &held)
    }

    fn git_dir_of(&self, root: &str) -> Option<String> {
        let dot = format!("{root}/.git");
        if self.is_dir(&dot) {
            Some(dot)
        } else {
            git_dir(root, &self.read(&dot)?)
        }
    }

    fn branch(&self, cwd: &str) -> Option<String> {
        let dir = self.git_dir_of(&self.root(cwd)?)?;
        git_branch(&self.read(&format!("{dir}/HEAD"))?)
    }

    fn project(&self, cwd: &str) -> Option<ProjectRef> {
        let tree = self.root(cwd);
        let common = tree
            .as_ref()
            .and_then(|root| self.git_dir_of(root))
            .and_then(|dir| {
                self.read(&format!("{dir}/commondir")).map(|text| common_dir(&dir, &text))
            })
            .map(|path| Tree::fold(&path))
            .filter(|path| self.is_dir(path));
        resolve_project(tree, common)
    }
}

fn repo_with_worktree() -> Tree {
    Tree::new(&[
        ("/b/acme-api/.git/HEAD", "ref: refs/heads/main\n"),
        ("/b/acme-api/.git/worktrees/spec-x/HEAD", "ref: refs/heads/spec/x\n"),
        ("/b/acme-api/.git/worktrees/spec-x/commondir", "../..\n"),
        (
            "/b/acme-api/.worktrees/spec-x/.git",
            "gitdir: /b/acme-api/.git/worktrees/spec-x\n",
        ),
    ])
}

#[test]
fn branch_from_a_normal_git_dir_with_crlf() {
    let t = Tree::new(&[("/r/.git/HEAD", "ref: refs/heads/feature/x\r\n")]);
    assert_eq!(t.branch("/r").as_deref(), Some("feature/x"));
}

#[test]
fn branch_from_a_worktree_git_file_redirect() {
    let t = Tree::new(&[
        ("/r/realgit/HEAD", "ref: refs/heads/wt\n"),
        ("/r/.git", "gitdir: /r/realgit\n"),
    ]);
    assert_eq!(t.branch("/r").as_deref(), Some("wt"));
}

#[test]
fn a_tree_outside_a_repository_has_no_project() {
    let t = Tree::new(&[("/scratch/notes.txt", "")]);
    assert!(t.project("/scratch").is_none());
    assert!(t.project("/").is_none());
}

#[test]
fn a_cwd_that_is_not_absolute_names_no_tree() {
    let t = Tree::new(&[("/.git/HEAD", "ref: refs/heads/main\n")]);
    for cwd in ["", ".", "../.."] {
        assert!(t.project(cwd).is_none(), "project for {cwd:?}");
        assert!(t.branch(cwd).is_none(), "branch for {cwd:?}");
    }
}

#[test]
fn detached_head_and_non_repo_yield_none() {
    let t = Tree::new(&[("/r/.git/HEAD", "a1b2c3d4e5f6\n")]);
    assert_eq!(t.branch("/r"), None);
    assert_eq!(t.branch("/tmp/definitely-not-a-repo-xyz"), None);
}

#[test]
fn a_linked_worktree_attributes_to_its_repository() {
    let t = repo_with_worktree();
    for from in ["/b/acme-api/.worktrees/spec-x", "/b/acme-api/.worktrees/spec-x/crates/core/src"] {
        let p = t.project(from).expect("a tree in a repository has a project");
        assert_eq!(p.key, "/b/acme-api", "from {from}");
        assert_eq!(p.label, "acme-api", "from {from}");
    }
}

#[test]
fn a_worktree_reports_the_branch_it_is_on_not_the_repositorys() {
    let t = repo_with_worktree();
    assert_eq!(t.branch("/b/acme-api/.worktrees/spec-x").as_deref(), Some("spec/x"));
    assert_eq!(t.branch("/b/acme-api").as_deref(), Some("main"));
}

#[test]
fn a_worktree_of_a_submodule_keeps_its_own_identity() {
    let t = Tree::new(&[
        ("/b/super/.git/modules/lib/HEAD", "ref: refs/heads/main\n"),
        ("/b/super/.git/modules/lib/worktrees/w/HEAD", "ref: refs/heads/sub-wt\n"),
        ("/b/super/.git/modules/lib/worktrees/w/commondir", "../..\n"),
        ("/b/subwt/.git", "gitdir: /b/super/.git/modules/lib/worktrees/w\n"),
    ]);
    let p = t.project("/b/subwt").unwrap();
    assert_eq!(p.key, "/b/subwt");
    assert_eq!(p.label, "subwt");
    assert_eq!(t.branch("/b/subwt").as_deref(), Some("sub-wt"));
}

#[test]
fn a_submodule_is_its_own_project() {
    let t = Tree::new(&[
        ("/b/super/.git/HEAD", "ref: refs/heads/main\n"),
        ("/b/super/.git/modules/lib/HEAD", "ref: refs/heads/dev\n"),
        ("/b/super/lib/.git", "gitdir: ../.git/modules/lib\n"),
    ]);
    let p = t.project("/b/super/lib").unwrap();
    assert_eq!(p.key, "/b/super/lib");
    assert_eq!(p.label, "lib");
    assert_eq!(
        t.branch("/b/super/lib").as_deref(),
        Some("dev"),
        "a relative gitdir still resolves"
    );
}

#[test]
fn a_shared_git_dir_outside_a_checkout_attributes_to_no_repository() {
    let t = Tree::new(&[
        ("/b/bare.git/worktrees/wt/HEAD", "ref: refs/heads/wt\n"),
        ("/b/bare.git/worktrees/wt/commondir", "/b/bare.git\n"),
        ("/b/co/.git", "gitdir: /b/bare.git/worktrees/wt\n"),
    ]);
    let p = t.project("/b/co").unwrap();
    assert_eq!(p.key, "/b/co");
    assert_eq!(p.label, "co");
}

#[test]
fn candidates_go_up_to_the_root() {
    assert_eq!(candidate_roots("/a/b/c"), vec!["/a/b/c", "/a/b", "/a", "/"]);
    assert!(candidate_roots("a/b").is_empty());
    assert_eq!(recorded_path("/a", "../x"), "/a/../x");
    assert_eq!(recorded_path("/a", "/x"), "/x");
}

#[test]
fn a_repository_at_the_root_is_labelled_by_its_path() {
    let p = resolve_project(Some("/".to_string()), None).unwrap();
    assert_eq!(p.label, "/");
    assert!(resolve_project(None, Some("/r/.git".to_string())).is_none());
}
