use inventory_core::disk::{Disk, Kind, Lookup, Probe};
use inventory_core::infer::infer;
use inventory_core::mentions::{extract_paths, qualify, MAX_FILES_PER_CONVERSATION};
use inventory_core::path::Platform;
use inventory_core::remote::{normalize_remote, origin_url, repo_name_from_remote};
use inventory_core::repo::{discover, resolve, Origin, RepoRef};
use inventory_core::token::{clean_token, strip_line_suffix};

/// A file tree held in memory.
struct Tree {
    platform: Platform,
    dirs: Vec<String>,
    files: Vec<(String, String)>,
}

fn lexical(path: &str) -> String {
    let mut parts: Vec<&str> = Vec::new();
    for part in path.split('/') {
        match part {
            "" | "." => {}
            ".." => {
                parts.pop();
            }
            other => parts.push(other),
        }
    }
    format!("/{}", parts.join("/"))
}

impl Tree {
    fn new() -> Tree {
        Tree { platform: Platform::Unix, dirs: vec!["/".to_string()], files: Vec::new() }
    }

    fn dir(mut self, path: &str) -> Tree {
        let mut at = String::new();
        for part in path.split('/').filter(|p| !p.is_empty()) {
            at = format!("{at}/{part}");
            self.dirs.push(at.clone());
        }
        self
    }

    fn file(self, path: &str, text: &str) -> Tree {
        let cut = path.rfind('/').unwrap();
        let mut tree = self.dir(&path[..cut]);
        tree.files.push((path.to_string(), text.to_string()));
        tree
    }

    fn kind(&self, path: &str) -> Kind {
        let at = lexical(path);
        if self.dirs.contains(&at) {
            Kind::Directory
        } else if self.files.iter().any(|(p, _)| *p == at) {
            Kind::File
        } else {
            Kind::Missing
        }
    }

    fn text(&self, path: &str) -> Option<String> {
        let at = lexical(path);
        self.files.iter().find(|(p, _)| *p == at).map(|(_, t)| t.clone())
    }

    /// Answers questions until the result is known. No question comes twice.
    fn ask<T>(&self, f: impl Fn(&Disk) -> Lookup<T>) -> T {
        let mut disk = Disk::new(self.platform);
        let mut asked: Vec<Probe> = Vec::new();
        loop {
            match f(&disk) {
                Lookup::Known(v) => return v,
                Lookup::Ask(probe) => {
                    assert!(!asked.contains(&probe), "asked twice: {probe:?}");
                    asked.push(probe.clone());
                    match probe {
                        Probe::Kind(p) => {
                            let kind = self.kind(&p);
                            disk.set_kind(p, kind);
                        }
                        Probe::Text(p) => {
                            let text = self.text(&p);
                            disk.set_text(p, text);
                        }
                    }
                }
            }
        }
    }

    fn discover(&self, start: &str) -> Option<RepoRef> {
        self.ask(|disk| discover(start, disk))
    }
}

fn mentioned(body: &str) -> Vec<(String, i64)> {
    Tree::new().ask(|disk| extract_paths(body, None, disk))
}

#[test]
fn remotes_in_every_form_normalise_to_one_key() {
    let expected = "github.com/owner/repo";
    for url in [
        "git@github.com:owner/repo.git",
        "https://github.com/owner/repo.git",
        "https://github.com/owner/repo",
        "ssh://git@github.com/owner/repo.git",
        "git@github.com:Owner/Repo.git",
        "https://github.com/owner/repo/",
    ] {
        assert_eq!(normalize_remote(url), expected, "failed on {url}");
    }
}

#[test]
fn origin_is_read_out_of_a_real_config_shape() {
    let cfg = r#"
[core]
	repositoryformatversion = 0
[remote "upstream"]
	url = https://example.com/not-this.git
[remote "origin"]
	url = git@github.com:owner/repo.git
	fetch = +refs/heads/*:refs/remotes/origin/*
[branch "main"]
	remote = origin
"#;
    assert_eq!(origin_url(cfg).as_deref(), Some("git@github.com:owner/repo.git"));
}

#[test]
fn a_config_without_origin_yields_nothing() {
    assert!(origin_url("[core]\n\tbare = false\n").is_none());
}

#[test]
fn line_and_column_suffixes_are_stripped() {
    assert_eq!(strip_line_suffix("src/main.rs:42"), "src/main.rs");
    assert_eq!(strip_line_suffix("src/main.rs:42:9"), "src/main.rs");
    assert_eq!(strip_line_suffix("src/main.rs"), "src/main.rs");
    // Not a line number, so not stripped.
    assert_eq!(strip_line_suffix("C:/tmp/x.rs"), "C:/tmp/x.rs");
}

#[test]
fn paths_are_pulled_out_of_prose_and_markdown() {
    let body = "I edited `src/main.rs` and then src/db.rs:14, plus (crates/core/lib.rs).";
    let found: Vec<String> = mentioned(body).into_iter().map(|(p, _)| p).collect();
    assert!(found.contains(&"src/main.rs".to_string()), "{found:?}");
    assert!(found.contains(&"src/db.rs".to_string()), "{found:?}");
    assert!(found.contains(&"crates/core/lib.rs".to_string()), "{found:?}");
}

#[test]
fn urls_and_bare_filenames_are_not_mistaken_for_repo_files() {
    let body = "see https://example.com/docs/index.html and also index.html generally";
    assert!(mentioned(body).is_empty(), "{:?}", mentioned(body));
}

#[test]
fn mention_counts_order_the_result() {
    let body = "src/a.rs src/b.rs src/a.rs src/a.rs src/b.rs src/c.rs";
    let found = mentioned(body);
    assert_eq!(found[0], ("src/a.rs".to_string(), 3));
    assert_eq!(found[1], ("src/b.rs".to_string(), 2));
    assert_eq!(found[2], ("src/c.rs".to_string(), 1));
}

#[test]
fn absolute_paths_are_relativised_against_the_repo_and_otherwise_dropped() {
    let tree = Tree::new();
    let root = "/home/dev/api";
    assert_eq!(
        tree.ask(|d| qualify("/home/dev/api/src/main.rs", Some(root), d)).as_deref(),
        Some("src/main.rs")
    );
    assert!(tree.ask(|d| qualify("/etc/passwd", Some(root), d)).is_none());
    // No root to measure against.
    assert!(tree.ask(|d| qualify("/home/dev/api/src/main.rs", None, d)).is_none());
}

#[test]
fn a_repo_is_discovered_by_walking_up_and_keyed_on_its_remote() {
    let root = "/tmp/checkout";
    let tree = Tree::new()
        .dir("/tmp/checkout/.git")
        .file(
            "/tmp/checkout/.git/config",
            "[remote \"origin\"]\n\turl = git@github.com:owner/repo.git\n",
        )
        .dir("/tmp/checkout/crates/core/src");

    let found = tree
        .discover("/tmp/checkout/crates/core/src")
        .expect("should find the repo from a nested directory");
    assert_eq!(found.key, "git:github.com/owner/repo");
    assert_eq!(found.name, "repo");
    assert_eq!(found.root, root);
}

#[test]
fn a_repo_without_a_remote_falls_back_to_its_path() {
    let tree = Tree::new()
        .dir("/tmp/local/.git")
        .file("/tmp/local/.git/config", "[core]\n\tbare = false\n");

    let found = tree.discover("/tmp/local").unwrap();
    assert!(found.key.starts_with("path:"), "{}", found.key);
    assert!(found.remote.is_none());
    assert_eq!(found.key, "path:/tmp/local");
    assert_eq!(found.name, "local");
}

/// A worktree's `.git` is a file pointing at per-worktree state, and the config
/// it needs lives in the common dir that state points back to.
#[test]
fn a_worktree_resolves_to_the_main_repos_config() {
    let tree = Tree::new()
        .dir("/tmp/main/.git/worktrees/feature")
        .file(
            "/tmp/main/.git/config",
            "[remote \"origin\"]\n\turl = https://github.com/owner/repo.git\n",
        )
        .file("/tmp/main/.git/worktrees/feature/commondir", "../..\n")
        .file("/tmp/feature/.git", "gitdir: /tmp/main/.git/worktrees/feature\n");

    let found = tree.discover("/tmp/feature").expect("worktree should resolve");
    assert_eq!(found.key, "git:github.com/owner/repo");
}

#[test]
fn a_submodule_reads_its_own_git_directory() {
    let tree = Tree::new()
        .file(
            "/tmp/main/.git/modules/sub/config",
            "[remote \"origin\"]\n\turl = https://github.com/owner/sub\n",
        )
        .file("/tmp/main/sub/.git", "gitdir: ../.git/modules/sub\n");
    let found = tree.discover("/tmp/main/sub").unwrap();
    assert_eq!(found.key, "git:github.com/owner/sub");
    assert_eq!(found.root, "/tmp/main/sub");
}

#[test]
fn a_git_file_that_points_nowhere_still_marks_a_repository() {
    let tree = Tree::new().file("/tmp/odd/.git", "not a pointer\n");
    let found = tree.discover("/tmp/odd").unwrap();
    assert_eq!(found.key, "path:/tmp/odd");

    let tree = Tree::new().file("/tmp/gone/.git", "gitdir: /tmp/nothing/here\n");
    assert_eq!(tree.discover("/tmp/gone").unwrap().key, "path:/tmp/gone");
}

#[test]
fn a_file_is_a_location_inside_its_directory() {
    let tree = Tree::new().file("/tmp/a/.git/config", "").file("/tmp/a/src/x.rs", "");
    assert_eq!(tree.discover("/tmp/a/src/x.rs").unwrap().root, "/tmp/a");
    assert!(tree.discover("/tmp").is_none());
    assert!(tree.discover("").is_none());
}

/// A project that is not a git repository still has to group, or every query in
/// this module silently ignores it.
#[test]
fn a_non_git_project_still_resolves_by_path() {
    let tree = Tree::new();
    let found = tree.ask(|d| resolve("/home/dev/scratch-project", d)).unwrap();
    assert_eq!(found.key, "path:/home/dev/scratch-project");
    assert_eq!(found.name, "scratch-project");
    assert!(tree.ask(|d| resolve("   ", d)).is_none());
}

#[test]
fn a_recorded_directory_resolves_to_the_repository_around_it() {
    let tree = Tree::new()
        .file("/tmp/c/.git/config", "[remote \"origin\"]\nurl=https://Example.org/A/B\n")
        .dir("/tmp/c/deep");
    let found = tree.ask(|d| resolve("  /tmp/c/deep\n", d)).unwrap();
    assert_eq!(found.key, "git:example.org/a/b");
    assert_eq!(found.remote.as_deref(), Some("example.org/a/b"));
    assert_eq!(found.root, "/tmp/c");
    assert_eq!(found.name, "b");
}

#[test]
fn a_moved_checkout_stays_one_repository() {
    let tree = Tree::new()
        .file(
            "/work/one/.git/config",
            "[remote \"origin\"]\n\turl = https://github.com/acme/api.git\n",
        )
        .file(
            "/work/two/.git/config",
            "[remote \"origin\"]\n\turl = git@github.com:acme/api.git\n",
        );
    let one = tree.discover("/work/one").unwrap();
    let two = tree.discover("/work/two").unwrap();
    assert_eq!(one.key, two.key);
    assert_eq!(one.name, two.name);
    assert_ne!(one.root, two.root);
}

#[test]
fn an_origin_survives_being_stored() {
    for origin in [Origin::Recorded, Origin::Inferred] {
        assert_eq!(Origin::parse(origin.as_str()), origin);
    }
    assert_eq!(Origin::Recorded.as_str(), "recorded");
    assert_eq!(Origin::Inferred.as_str(), "inferred");
    assert_eq!(Origin::parse("something else"), Origin::Recorded);
    assert_eq!(Origin::parse("Inferred"), Origin::Recorded);
}

#[test]
fn ports_users_and_spacing_in_remotes() {
    assert_eq!(normalize_remote("  https://host/x.git/ "), "host/x");
    assert_eq!(normalize_remote("ssh://git@github.com:22/owner/repo.git"), "github.com/owner/repo");
    assert_eq!(normalize_remote("https://host:8443/o/r"), "host/o/r");
    assert_eq!(normalize_remote("ssh://host:/o/r"), "host/o/r");
    assert_eq!(normalize_remote("ssh://host:22"), "host");
    assert_eq!(normalize_remote("ssh://git@host:22/o/r:7"), normalize_remote("ssh://git@host/o/r:7"));
    // A colon that is not before a port, and one where there is no scheme,
    // separates host and path.
    assert_eq!(normalize_remote("ssh://git@host:o/r.git"), "host/o/r");
    assert_eq!(normalize_remote("ssh://git@host:22x/r"), "host/22x/r");
    assert_eq!(normalize_remote("git@host:22/o/r"), "host/22/o/r");
    assert_eq!(normalize_remote("git@host:/o/r"), "host/o/r");
    assert_eq!(normalize_remote("host/o/r.GIT"), "host/o/r.git");
    assert_eq!(normalize_remote(""), "");
    assert_eq!(repo_name_from_remote("host/o/r").as_deref(), Some("r"));
    assert_eq!(repo_name_from_remote("host/o//").as_deref(), Some("o"));
    assert_eq!(repo_name_from_remote("//"), None);
}

#[test]
fn the_origin_section_is_found_whatever_its_spacing_and_case() {
    assert_eq!(origin_url("[ REMOTE   \"Origin\" ]\n URL = a=b \n").as_deref(), Some("a=b"));
    assert_eq!(origin_url("[remote \"origin\"]\nurl =\nurl = second\n").as_deref(), Some("second"));
    assert_eq!(origin_url("url = loose\n"), None);
    assert_eq!(origin_url("[remote \"origin\"]\r\nurl = x\r\n").as_deref(), Some("x"));
    assert_eq!(origin_url("[remote \"origin\"]\n[core]\nurl = x\n"), None);
}

#[test]
fn tokens_lose_their_wrapping() {
    assert_eq!(clean_token("(src/lib.rs).").as_deref(), Some("src/lib.rs"));
    assert_eq!(clean_token("**`src/lib.rs:3:4`**,").as_deref(), Some("src/lib.rs"));
    assert_eq!(clean_token("\"...\""), None);
    assert_eq!(clean_token(""), None);
    assert_eq!(strip_line_suffix("a:1:2:3"), "a:1");
    assert_eq!(strip_line_suffix("a:"), "a:");
}

#[test]
fn the_repository_named_most_often_is_inferred() {
    let tree = Tree::new()
        .file("/w/a/.git/config", "")
        .file("/w/b/.git/config", "")
        .dir("/w/a/src")
        .dir("/w/b/src");
    let body = "saw /w/b/src/x.rs and /w/a/src/y.rs:3 then /w/a/src/z.rs. See file:///w/b/src/q.rs";
    let found = tree.ask(|d| infer(body, d)).unwrap();
    assert_eq!(found.key, "path:/w/a");

    // Even votes go to the key that comes first.
    let even = "/w/b/src/x.rs /w/a/src/y.rs";
    assert_eq!(tree.ask(|d| infer(even, d)).unwrap().key, "path:/w/a");

    assert!(tree.ask(|d| infer("no paths, /elsewhere/x.rs", d)).is_none());
}

#[test]
fn what_is_on_disk_counts_whatever_it_is_called() {
    let tree = Tree::new().file("/r/bin/tool", "").file("/r/notes", "");
    let root = Some("/r");
    assert_eq!(tree.ask(|d| qualify("bin/tool", root, d)).as_deref(), Some("bin/tool"));
    assert_eq!(tree.ask(|d| qualify("notes", root, d)).as_deref(), Some("notes"));
    assert_eq!(tree.ask(|d| qualify("bin/other", root, d)), None);
    assert_eq!(tree.ask(|d| qualify("bin/other.rs", root, d)).as_deref(), Some("bin/other.rs"));
}

#[test]
fn names_decide_where_there_is_no_root() {
    let tree = Tree::new();
    let of = |token: &str| tree.ask(|d| qualify(token, None, d));
    assert_eq!(of("Makefile").as_deref(), Some("Makefile"));
    assert_eq!(of("a/Dockerfile").as_deref(), Some("a/Dockerfile"));
    assert_eq!(of("./src/../src/x.RS").as_deref(), Some("src/x.RS"));
    assert_eq!(of("a/.env"), None);
    assert_eq!(of("a/b"), None);
    assert_eq!(of("../x/y.rs").as_deref(), Some("x/y.rs"));
    assert_eq!(of("-Isrc/x.rs"), None);
    assert_eq!(of("@scope/x.js"), None);
    assert_eq!(of("a/b.rs/"), Some("a/b.rs".to_string()));
}

#[test]
fn absolute_paths_that_leave_the_repository_are_dropped() {
    let tree = Tree::new().file("/home/dev/secret/x.rs", "").file("/home/dev/api/secret/x.rs", "");
    let root = Some("/home/dev/api");
    let of = |token: &str| tree.ask(|d| qualify(token, root, d));
    assert_eq!(of("/home/dev/api/../secret/x.rs"), None);
    assert_eq!(of("/home/dev/api/src/../../secret/x.rs"), None);
    assert_eq!(of("/home/dev/api/./../secret/x.rs"), None);
    assert_eq!(of("/home/dev/api/.."), None);
    assert_eq!(of("/home/dev/api/src/../secret/x.rs").as_deref(), Some("secret/x.rs"));
    assert_eq!(of("/home/dev/api/a/b/../../x/y.rs").as_deref(), Some("x/y.rs"));
    // One that leaves and comes back is inside.
    assert_eq!(of("/home/dev/api/../api/src/x.rs").as_deref(), Some("src/x.rs"));
    // One that does not start with the root as it is written is not looked at.
    assert_eq!(of("/home/dev/../dev/api/src/x.rs"), None);
    // There is nothing above the root of the disk to climb to.
    let of_all = |token: &str| tree.ask(|d| qualify(token, Some("/"), d));
    assert_eq!(of_all("/../src/x.rs").as_deref(), Some("src/x.rs"));
}

/// A tree on Windows. It is looked into as though `C:` were a directory.
fn windows() -> Tree {
    Tree { platform: Platform::Windows, dirs: Vec::new(), files: Vec::new() }
}

#[test]
fn paths_on_windows_are_relativised_against_the_repo() {
    let tree = windows();
    let root = Some("C:\\repo");
    let of = |token: &str| tree.ask(|d| qualify(token, root, d));
    assert_eq!(of("C:\\repo\\src\\x.rs").as_deref(), Some("src/x.rs"));
    assert_eq!(of("c:/repo/src/x.rs").as_deref(), Some("src/x.rs"));
    assert_eq!(of("D:\\repo\\src\\x.rs"), None);
    assert_eq!(of("C:\\repo\\..\\secret\\x.rs"), None);
    assert_eq!(of("C:\\repo\\..\\repo\\src\\x.rs").as_deref(), Some("src/x.rs"));
    assert_eq!(of("src\\lib.rs").as_deref(), Some("src/lib.rs"));
    // A root without a drive is not absolute there.
    assert_eq!(of("/etc/x.rs").as_deref(), Some("/etc/x.rs"));
    assert_eq!(tree.ask(|d| qualify("C:\\repo\\src\\x.rs", None, d)), None);
}

#[test]
fn repositories_on_windows_are_found_by_walking_up() {
    let asked = |start: &str, config_at: &str| {
        let mut disk = Disk::new(Platform::Windows);
        loop {
            match discover(start, &disk) {
                Lookup::Known(found) => return found,
                Lookup::Ask(Probe::Kind(p)) => {
                    let kind = if p == config_at { Kind::Directory } else { Kind::Missing };
                    disk.set_kind(p, kind);
                }
                Lookup::Ask(Probe::Text(p)) => {
                    assert_eq!(p, format!("{config_at}\\config"));
                    disk.set_text(p, Some("[core]\n".to_string()));
                }
            }
        }
    };
    let found = asked("C:\\work\\api\\src", "C:\\work\\api\\.git").unwrap();
    assert_eq!(found.key, "path:C:/work/api");
    assert_eq!(found.root, "C:\\work\\api");
    assert_eq!(found.name, "api");
    assert!(asked("C:\\work", "D:\\.git").is_none());
    let found = asked("C:\\work", "C:\\.git").unwrap();
    assert_eq!(found.key, "path:C:");
    assert_eq!(found.name, "C:\\");
}

#[test]
fn a_directory_that_is_written_differently_counts_as_the_same() {
    let tree = Tree::new().file("/w/a/.git/config", "").dir("/w/a/src");
    let found = tree.ask(|d| infer("/w/a/src//x.rs /w//a/src/y.rs", d)).unwrap();
    assert_eq!(found.root, "/w/a");
    let mut disk = Disk::new(Platform::Windows);
    disk.set_kind("c:\\r".to_string(), Kind::Directory);
    disk.set_kind("c:\\r\\.git".to_string(), Kind::Directory);
    disk.set_text("c:\\r\\.git\\config".to_string(), None);
    // The second is the same directory, so nothing more is asked about it.
    match infer("c:\\r\\x.rs C:/r/y.rs", &disk) {
        Lookup::Known(Some(found)) => assert_eq!(found.key, "path:c:/r"),
        other => panic!("unexpected {other:?}"),
    }
}

#[test]
fn the_list_of_files_is_capped() {
    let mut body = String::new();
    for i in 0..(MAX_FILES_PER_CONVERSATION + 50) {
        body.push_str(&format!("src/f{i:04}.rs "));
    }
    body.push_str("src/f0249.rs");
    let found = mentioned(&body);
    assert_eq!(found.len(), 200);
    assert_eq!(found[0], ("src/f0249.rs".to_string(), 2));
    assert_eq!(found[1], ("src/f0000.rs".to_string(), 1));
    assert_eq!(found[199], ("src/f0198.rs".to_string(), 1));
}
